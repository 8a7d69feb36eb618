//! The posting resolver: makes every posting of a transaction concrete,
//! inferring the single missing amount as the negation of the sum of the
//! present ones, so that the resolved quantities sum to exactly zero.
use vstd::prelude::*;
use crate::quantity::{Quantity, spec_sub, lemma_spec_sub_scaled, pow10};
use crate::transaction::{Posting, Transaction, ResolvedPosting, LedgerError, posting_wf,
    postings_wf};

verus! {

/// How many postings of the sequence lack an amount.
pub open spec fn absent_count(ps: Seq<Posting>) -> int
    decreases ps.len(),
{
    if ps.len() == 0 {
        0
    } else {
        absent_count(ps.drop_last()) + if ps.last().amount is None {
            1int
        } else {
            0int
        }
    }
}

/// The accounts of the amount-less postings, in posting order.
pub open spec fn absent_accounts(ps: Seq<Posting>) -> Seq<Seq<char>>
    decreases ps.len(),
{
    if ps.len() == 0 {
        Seq::empty()
    } else if ps.last().amount is None {
        absent_accounts(ps.drop_last()).push(ps.last().account@)
    } else {
        absent_accounts(ps.drop_last())
    }
}

/// The postings that carry an amount, as (account, quantity) pairs in
/// posting order.
pub open spec fn present_part(ps: Seq<Posting>) -> Seq<(Seq<char>, Quantity)>
    decreases ps.len(),
{
    if ps.len() == 0 {
        Seq::empty()
    } else if ps.last().amount is Some {
        present_part(ps.drop_last()).push((ps.last().account@, ps.last().amount.unwrap()))
    } else {
        present_part(ps.drop_last())
    }
}

/// The running zero-sum correction: zero minus each present amount in
/// posting order; `None` once a step leaves the representable range.
pub open spec fn running_sub(ps: Seq<Posting>) -> Option<Quantity>
    decreases ps.len(),
{
    if ps.len() == 0 {
        Some(Quantity { mantissa: 0, scale: 0 })
    } else {
        match running_sub(ps.drop_last()) {
            Option::None => None,
            Option::Some(r) => match ps.last().amount {
                Option::Some(q) => spec_sub(r, q),
                Option::None => Some(r),
            },
        }
    }
}

/// Resolved postings as (account, quantity) pairs.
pub open spec fn views_of(s: Seq<ResolvedPosting>) -> Seq<(Seq<char>, Quantity)> {
    s.map(|i: int, rp: ResolvedPosting| (rp.account@, rp.quantity))
}

/// The exact sum of the quantities of a resolved sequence.
pub open spec fn sum_scaled(s: Seq<(Seq<char>, Quantity)>) -> int
    decreases s.len(),
{
    if s.len() == 0 {
        0
    } else {
        sum_scaled(s.drop_last()) + s.last().1.scaled()
    }
}

/// Every quantity in a resolved-view sequence is well-formed.
pub open spec fn views_wf(s: Seq<(Seq<char>, Quantity)>) -> bool {
    forall|i: int| 0 <= i < s.len() ==> (#[trigger] s[i]).1.wf()
}

/// Resolution succeeds: at most one posting lacks an amount, and when one
/// does, the inferred quantity is representable.
pub open spec fn resolvable(ps: Seq<Posting>) -> bool {
    absent_count(ps) <= 1 && (absent_count(ps) == 1 ==> running_sub(ps) is Some)
}

/// What resolution returns: the present postings in their order, then, when
/// one posting was amount-less, that posting's account with the inferred
/// quantity appended last.
pub open spec fn resolve_views(ps: Seq<Posting>) -> Seq<(Seq<char>, Quantity)> {
    if absent_count(ps) == 1 {
        present_part(ps).push((absent_accounts(ps)[0], running_sub(ps).unwrap()))
    } else {
        present_part(ps)
    }
}

pub proof fn lemma_absent_basics(ps: Seq<Posting>)
    ensures
        0 <= absent_count(ps),
        absent_accounts(ps).len() == absent_count(ps),
        present_part(ps).len() + absent_count(ps) == ps.len(),
    decreases ps.len(),
{
    if ps.len() > 0 {
        lemma_absent_basics(ps.drop_last());
    }
}

/// A prefix never has more amount-less postings than the whole sequence.
pub proof fn lemma_absent_prefix_le(ps: Seq<Posting>, i: int)
    requires
        0 <= i <= ps.len(),
    ensures
        absent_count(ps.take(i)) <= absent_count(ps),
    decreases ps.len() - i,
{
    if i == ps.len() {
        assert(ps.take(i) =~= ps);
    } else {
        lemma_absent_prefix_le(ps, i + 1);
        assert(ps.take(i + 1).drop_last() =~= ps.take(i));
        assert(ps.take(i + 1).last() == ps[i]);
    }
}

/// The running correction, when representable, is exactly the negated sum
/// of the present amounts.
pub proof fn lemma_running_sub_scaled(ps: Seq<Posting>)
    requires
        postings_wf(ps),
        running_sub(ps) is Some,
    ensures
        running_sub(ps).unwrap().wf(),
        running_sub(ps).unwrap().scaled() == -sum_scaled(present_part(ps)),
    decreases ps.len(),
{
    if ps.len() == 0 {
        let z = Quantity { mantissa: 0, scale: 0 };
        assert(0int * pow10((crate::quantity::MAX_SCALE - z.scale) as nat) == 0)
            by (nonlinear_arith);
    } else {
        let dl = ps.drop_last();
        assert forall|i: int| 0 <= i < dl.len() implies posting_wf(#[trigger] dl[i]) by {
            assert(dl[i] == ps[i]);
        }
        lemma_running_sub_scaled(dl);
        let r = running_sub(dl).unwrap();
        match ps.last().amount {
            Option::Some(q) => {
                assert(posting_wf(ps[ps.len() - 1]));
                lemma_spec_sub_scaled(r, q);
                assert(present_part(ps).drop_last() =~= present_part(dl));
                assert(present_part(ps).last() == (ps.last().account@, q));
            },
            Option::None => {
                assert(present_part(ps) == present_part(dl));
            },
        }
    }
}

/// With no amount-less posting, the resolved pairs are exactly the postings'
/// own accounts and amounts, position by position.
pub proof fn lemma_present_identity(ps: Seq<Posting>)
    requires
        absent_count(ps) == 0,
    ensures
        present_part(ps).len() == ps.len(),
        forall|i: int| 0 <= i < ps.len() ==> (#[trigger] ps[i]).amount is Some && present_part(
            ps,
        )[i] == (ps[i].account@, ps[i].amount.unwrap()),
    decreases ps.len(),
{
    if ps.len() > 0 {
        let dl = ps.drop_last();
        lemma_absent_basics(dl);
        lemma_present_identity(dl);
        assert(ps.last().amount is Some);
        assert forall|i: int| 0 <= i < ps.len() implies (#[trigger] ps[i]).amount is Some
            && present_part(ps)[i] == (ps[i].account@, ps[i].amount.unwrap()) by {
            if i < ps.len() - 1 {
                assert(dl[i] == ps[i]);
                assert(present_part(ps)[i] == present_part(dl)[i]);
            } else {
                assert(ps[i] == ps.last());
            }
        }
    }
}

/// Resolve one transaction: give every posting a concrete signed quantity.
///
/// Present postings keep their amounts and positions; the single amount-less
/// posting, if any, is appended last with the quantity that makes the whole
/// transaction sum to zero. A transaction with two or more amount-less
/// postings is rejected as malformed; an inferred quantity that cannot be
/// represented is reported as overflow.
pub fn resolve(t: &Transaction) -> (r: Result<Vec<ResolvedPosting>, LedgerError>)
    requires
        t.wf(),
    ensures
        (absent_count(t.postings@) >= 2) <==> (r == Err::<Vec<ResolvedPosting>, LedgerError>(
            LedgerError::MalformedTransaction,
        )),
        (absent_count(t.postings@) == 1 && running_sub(t.postings@) is None) <==> (r == Err::<
            Vec<ResolvedPosting>,
            LedgerError,
        >(LedgerError::ArithmeticOverflow)),
        r is Ok <==> resolvable(t.postings@),
        r is Ok ==> views_of(r.unwrap()@) == resolve_views(t.postings@) && r.unwrap()@.len()
            == t.postings@.len() && views_wf(views_of(r.unwrap()@)),
        // The zero-sum law: with exactly one amount-less posting, the
        // resolved quantities sum to exactly zero.
        (r is Ok && absent_count(t.postings@) == 1) ==> sum_scaled(views_of(r.unwrap()@)) == 0,
        // Identity when fully specified: with no amount-less posting, each
        // resolved quantity is its input amount, in input order.
        absent_count(t.postings@) == 0 ==> r is Ok && (forall|i: int|
            0 <= i < t.postings@.len() ==> (#[trigger] r.unwrap()@[i]).account@
                == t.postings@[i].account@ && t.postings@[i].amount == Some(
                r.unwrap()@[i].quantity,
            )),
{
    let ghost ps = t.postings@;
    let n = t.postings.len();
    let mut out: Vec<ResolvedPosting> = Vec::new();
    let mut running: Option<Quantity> = Some(Quantity::zero());
    let mut pending: Option<String> = None;
    let mut i: usize = 0;
    while i < n
        invariant
            t.wf(),
            ps == t.postings@,
            n == ps.len(),
            i <= n,
            views_of(out@) == present_part(ps.take(i as int)),
            forall|k: int| 0 <= k < out@.len() ==> (#[trigger] out@[k]).quantity.wf(),
            running == running_sub(ps.take(i as int)),
            running is Some ==> running.unwrap().wf(),
            pending is None <==> absent_count(ps.take(i as int)) == 0,
            pending is Some ==> absent_count(ps.take(i as int)) == 1 && absent_accounts(
                ps.take(i as int),
            ) =~= seq![pending.unwrap()@],
            absent_count(ps.take(i as int)) <= 1,
        decreases n - i,
    {
        proof {
            assert(ps.take(i + 1).drop_last() =~= ps.take(i as int));
            assert(ps.take(i + 1).last() == ps[i as int]);
            assert(posting_wf(ps[i as int]));
        }
        let p = &t.postings[i];
        match &p.amount {
            Option::Some(q) => {
                out.push(ResolvedPosting { account: p.account.clone(), quantity: *q });
                running = match running {
                    Option::Some(rq) => rq.checked_sub(*q),
                    Option::None => None,
                };
                proof {
                    assert(views_of(out@) =~= present_part(ps.take(i + 1)));
                }
            },
            Option::None => {
                if pending.is_some() {
                    proof {
                        lemma_absent_prefix_le(ps, i + 1);
                    }
                    return Err(LedgerError::MalformedTransaction);
                }
                pending = Some(p.account.clone());
                proof {
                    lemma_absent_basics(ps.take(i as int));
                    assert(absent_accounts(ps.take(i as int)) =~= Seq::<Seq<char>>::empty());
                }
            },
        }
        i = i + 1;
    }
    proof {
        assert(ps.take(n as int) =~= ps);
    }
    match pending {
        Option::Some(acct) => {
            match running {
                Option::Some(rq) => {
                    proof {
                        lemma_running_sub_scaled(ps);
                    }
                    out.push(ResolvedPosting { account: acct, quantity: rq });
                    proof {
                        lemma_absent_basics(ps);
                        assert(views_of(out@) =~= resolve_views(ps));
                        assert(views_of(out@).drop_last() =~= present_part(ps));
                        assert(views_of(out@).last() == (acct@, rq));
                    }
                    Ok(out)
                },
                Option::None => Err(LedgerError::ArithmeticOverflow),
            }
        },
        Option::None => {
            proof {
                lemma_absent_basics(ps);
                lemma_present_identity(ps);
                assert forall|k: int| 0 <= k < ps.len() implies (#[trigger] out@[k]).account@
                    == ps[k].account@ && ps[k].amount == Some(out@[k].quantity) by {
                    assert(views_of(out@)[k] == (out@[k].account@, out@[k].quantity));
                    assert(views_of(out@)[k] == present_part(ps)[k]);
                }
            }
            Ok(out)
        },
    }
}

} // verus!
