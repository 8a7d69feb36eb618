use ledger_balances::accounts::Accounts;
use ledger_balances::quantity::Quantity;
use ledger_balances::transaction::{LedgerError, Posting, Transaction};

const ASSETS_CHECKING: &str = "Assets:Checking";
const GROCERIES_ACCOUNT: &str = "Expenses:Food:Groceries";

fn create_posting_with_account_and_amount(account: &str, amount: Option<i64>) -> Posting {
    Posting {
        account: account.to_owned(),
        amount: amount.map(Quantity::from_integer),
    }
}

fn create_transaction_with_postings(postings: Vec<Posting>) -> Transaction {
    Transaction { postings }
}

fn q(mantissa: i64, scale: u32) -> Quantity {
    Quantity::new(mantissa, scale).expect("scale in range")
}

#[test]
fn when_update_accounts_has_multiple_postings_zero_based_sum_is_considered() {
    let mut accounts = Accounts::new();
    let transaction = create_transaction_with_postings(vec![
        create_posting_with_account_and_amount(ASSETS_CHECKING, Some(-1)),
        create_posting_with_account_and_amount(GROCERIES_ACCOUNT, None),
    ]);

    accounts.update_accounts(&transaction).expect("transaction is resolvable");

    assert_eq!(
        accounts.get(&GROCERIES_ACCOUNT.to_owned()),
        Some(&vec![Quantity::from_integer(1)])
    );
}

#[test]
fn when_transaction_has_same_account_twice_update_accounts_updates_it_twice() {
    let mut accounts = Accounts::new();
    let transaction = create_transaction_with_postings(vec![
        create_posting_with_account_and_amount(ASSETS_CHECKING, Some(-1)),
        create_posting_with_account_and_amount(ASSETS_CHECKING, Some(-1)),
        create_posting_with_account_and_amount(GROCERIES_ACCOUNT, None),
    ]);

    accounts.update_accounts(&transaction).expect("transaction is resolvable");

    assert_eq!(
        accounts.get(&ASSETS_CHECKING.to_owned()),
        Some(&vec![Quantity::from_integer(-1), Quantity::from_integer(-1)])
    );
}

#[test]
fn when_all_transactions_have_amounts_update_accounts_updates_all() {
    let mut accounts = Accounts::new();
    let transaction = create_transaction_with_postings(vec![
        create_posting_with_account_and_amount(ASSETS_CHECKING, Some(-1)),
        create_posting_with_account_and_amount(GROCERIES_ACCOUNT, Some(1)),
    ]);

    accounts.update_accounts(&transaction).expect("transaction is resolvable");

    assert_eq!(
        accounts.get(&ASSETS_CHECKING.to_owned()),
        Some(&vec![Quantity::from_integer(-1)])
    );
    assert_eq!(
        accounts.get(&GROCERIES_ACCOUNT.to_owned()),
        Some(&vec![Quantity::from_integer(1)])
    );
}

#[test]
fn single_absent_posting_gets_the_negated_sum() {
    let mut accounts = Accounts::new();
    let transaction = create_transaction_with_postings(vec![
        create_posting_with_account_and_amount(ASSETS_CHECKING, Some(-1)),
        create_posting_with_account_and_amount(GROCERIES_ACCOUNT, None),
    ]);

    accounts.update_accounts(&transaction).expect("transaction is resolvable");

    assert_eq!(
        accounts.get(&ASSETS_CHECKING.to_owned()),
        Some(&vec![Quantity::from_integer(-1)])
    );
    assert_eq!(
        accounts.get(&GROCERIES_ACCOUNT.to_owned()),
        Some(&vec![Quantity::from_integer(1)])
    );
}

#[test]
fn duplicate_account_entries_stay_separate_and_inferred_amount_sums_both() {
    let mut accounts = Accounts::new();
    let transaction = create_transaction_with_postings(vec![
        create_posting_with_account_and_amount(ASSETS_CHECKING, Some(-1)),
        create_posting_with_account_and_amount(ASSETS_CHECKING, Some(-1)),
        create_posting_with_account_and_amount(GROCERIES_ACCOUNT, None),
    ]);

    accounts.update_accounts(&transaction).expect("transaction is resolvable");

    assert_eq!(
        accounts.get(&ASSETS_CHECKING.to_owned()),
        Some(&vec![Quantity::from_integer(-1), Quantity::from_integer(-1)])
    );
    assert_eq!(
        accounts.get(&GROCERIES_ACCOUNT.to_owned()),
        Some(&vec![Quantity::from_integer(2)])
    );
}

#[test]
fn fully_specified_transaction_is_stored_unchanged() {
    let mut accounts = Accounts::new();
    let transaction = create_transaction_with_postings(vec![
        create_posting_with_account_and_amount(ASSETS_CHECKING, Some(-1)),
        create_posting_with_account_and_amount(GROCERIES_ACCOUNT, Some(1)),
    ]);

    accounts.update_accounts(&transaction).expect("transaction is resolvable");

    assert_eq!(
        accounts.get(&ASSETS_CHECKING.to_owned()),
        Some(&vec![Quantity::from_integer(-1)])
    );
    assert_eq!(
        accounts.get(&GROCERIES_ACCOUNT.to_owned()),
        Some(&vec![Quantity::from_integer(1)])
    );
}

#[test]
fn applying_two_transactions_appends_in_arrival_order() {
    let mut accounts = Accounts::new();
    let first = create_transaction_with_postings(vec![
        create_posting_with_account_and_amount(ASSETS_CHECKING, Some(-1)),
        create_posting_with_account_and_amount(GROCERIES_ACCOUNT, None),
    ]);
    let second = create_transaction_with_postings(vec![
        create_posting_with_account_and_amount(ASSETS_CHECKING, Some(-1)),
        create_posting_with_account_and_amount(GROCERIES_ACCOUNT, Some(1)),
    ]);

    accounts.update_accounts(&first).expect("transaction is resolvable");
    accounts.update_accounts(&second).expect("transaction is resolvable");

    assert_eq!(
        accounts.get(&ASSETS_CHECKING.to_owned()),
        Some(&vec![Quantity::from_integer(-1), Quantity::from_integer(-1)])
    );
    assert_eq!(
        accounts.get(&GROCERIES_ACCOUNT.to_owned()),
        Some(&vec![Quantity::from_integer(1), Quantity::from_integer(1)])
    );
}

#[test]
fn two_amount_less_postings_are_rejected_as_malformed() {
    let mut accounts = Accounts::new();
    let transaction = create_transaction_with_postings(vec![
        create_posting_with_account_and_amount(ASSETS_CHECKING, Some(-1)),
        create_posting_with_account_and_amount(GROCERIES_ACCOUNT, None),
        create_posting_with_account_and_amount("Expenses:Misc", None),
    ]);

    let result = accounts.update_accounts(&transaction);

    assert_eq!(result, Err(LedgerError::MalformedTransaction));
    assert_eq!(accounts.get(&ASSETS_CHECKING.to_owned()), None);
    assert_eq!(accounts.get(&GROCERIES_ACCOUNT.to_owned()), None);
}

#[test]
fn unrepresentable_inferred_amount_is_reported_as_overflow() {
    let mut accounts = Accounts::new();
    let transaction = create_transaction_with_postings(vec![
        create_posting_with_account_and_amount(ASSETS_CHECKING, Some(i64::MIN)),
        create_posting_with_account_and_amount(GROCERIES_ACCOUNT, None),
    ]);

    let result = accounts.update_accounts(&transaction);

    assert_eq!(result, Err(LedgerError::ArithmeticOverflow));
    assert_eq!(accounts.get(&ASSETS_CHECKING.to_owned()), None);
}

#[test]
fn mixed_scale_amounts_resolve_exactly() {
    let mut accounts = Accounts::new();
    let transaction = create_transaction_with_postings(vec![
        Posting { account: ASSETS_CHECKING.to_owned(), amount: Some(q(15, 1)) },
        Posting { account: "Expenses:Fees".to_owned(), amount: Some(q(225, 2)) },
        Posting { account: GROCERIES_ACCOUNT.to_owned(), amount: None },
    ]);

    accounts.update_accounts(&transaction).expect("transaction is resolvable");

    assert_eq!(accounts.get(&GROCERIES_ACCOUNT.to_owned()), Some(&vec![q(-375, 2)]));
}

#[test]
fn series_for_unseen_account_signals_not_found() {
    let accounts = Accounts::new();

    let result = accounts.series_for(&"Income:Amazon".to_owned());

    assert!(matches!(result, Err(LedgerError::AccountNotFound)));
}

#[test]
fn series_for_returns_values_in_order_with_extremes() {
    let mut accounts = Accounts::new();
    let amounts: Vec<i64> = vec![3, -2, 5];
    for a in amounts {
        let transaction = create_transaction_with_postings(vec![
            create_posting_with_account_and_amount(ASSETS_CHECKING, Some(a)),
            create_posting_with_account_and_amount("Equity:Other", Some(-a)),
        ]);
        accounts.update_accounts(&transaction).expect("transaction is resolvable");
    }

    let series = accounts.series_for(&ASSETS_CHECKING.to_owned()).expect("account was posted to");

    assert_eq!(
        series.values,
        vec![Quantity::from_integer(3), Quantity::from_integer(-2), Quantity::from_integer(5)]
    );
    assert_eq!(series.min, Quantity::from_integer(-2));
    assert_eq!(series.max, Quantity::from_integer(5));
}

#[test]
fn amount_less_posting_resolves_to_the_end_of_the_output() {
    let transaction = create_transaction_with_postings(vec![
        create_posting_with_account_and_amount(ASSETS_CHECKING, Some(-1)),
        create_posting_with_account_and_amount(GROCERIES_ACCOUNT, None),
        create_posting_with_account_and_amount("Expenses:Fees", Some(-2)),
    ]);

    let resolved = ledger_balances::resolve::resolve(&transaction).expect("transaction is resolvable");

    let order: Vec<&str> = resolved.iter().map(|rp| rp.account.as_str()).collect();
    assert_eq!(order, vec![ASSETS_CHECKING, "Expenses:Fees", GROCERIES_ACCOUNT]);
    assert_eq!(resolved[0].quantity, Quantity::from_integer(-1));
    assert_eq!(resolved[1].quantity, Quantity::from_integer(-2));
    assert_eq!(resolved[2].quantity, Quantity::from_integer(3));
}

#[test]
fn empty_transaction_changes_nothing() {
    let mut accounts = Accounts::new();

    accounts.update_accounts(&create_transaction_with_postings(vec![])).expect("empty transaction is resolvable");

    assert_eq!(accounts.get(&ASSETS_CHECKING.to_owned()), None);
}

#[test]
fn get_on_fresh_ledger_finds_nothing() {
    let accounts = Accounts::default();

    assert_eq!(accounts.get(&ASSETS_CHECKING.to_owned()), None);
}
