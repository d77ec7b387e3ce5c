use reth2030::reports::{
    check_new_fixture_name, failure_verdict, generate_reports, suite_name, text_less,
};
use reth2030::vectors::{Fixture, FixtureBalance, FixtureExpected};

fn no_op_fixture(name: &str, balance: &str) -> Fixture {
    Fixture {
        name: name.to_string(),
        initial_accounts: vec![FixtureBalance {
            address: "0x1111111111111111111111111111111111111111".to_string(),
            balance: balance.to_string(),
        }],
        transactions: Vec::new(),
        expected: FixtureExpected {
            success: true,
            balances: vec![FixtureBalance {
                address: "0x1111111111111111111111111111111111111111".to_string(),
                balance: balance.to_string(),
            }],
        },
    }
}

#[test]
fn generate_reports_sorts_fixtures_by_name() {
    let fixtures = vec![no_op_fixture("zeta", "7"), no_op_fixture("alpha", "3")];
    let (scorecard, snapshot) = generate_reports(&fixtures).expect("generate reports");

    assert_eq!(scorecard.total, 2);
    assert_eq!(scorecard.passed, 2);
    assert_eq!(scorecard.failed, 0);

    let names: Vec<&str> = snapshot
        .fixtures
        .iter()
        .map(|fixture| fixture.name.as_str())
        .collect();
    assert_eq!(names, vec!["alpha", "zeta"]);
}

#[test]
fn generate_reports_handles_empty_fixture_list() {
    let fixtures = Vec::new();
    let (scorecard, snapshot) = generate_reports(&fixtures).expect("generate reports");

    assert_eq!(scorecard.total, 0);
    assert_eq!(scorecard.passed, 0);
    assert_eq!(scorecard.failed, 0);
    assert!(snapshot.fixtures.is_empty());
}

#[test]
fn reports_keep_equal_names_in_given_order_and_count_failures() {
    let mut failing = no_op_fixture("beta", "5");
    failing.expected.balances[0].balance = "6".to_string();
    let fixtures = vec![
        no_op_fixture("beta", "1"),
        failing,
        no_op_fixture("alpha", "2"),
        no_op_fixture("Beta", "3"),
    ];
    let (scorecard, snapshot) = generate_reports(&fixtures).expect("generate reports");
    assert_eq!(scorecard.suite, "minimal-state-tests");
    assert_eq!(snapshot.suite, suite_name());
    assert_eq!(scorecard.total, 4);
    assert_eq!(scorecard.passed, 3);
    assert_eq!(scorecard.failed, 1);
    let order: Vec<(&str, bool)> = snapshot
        .fixtures
        .iter()
        .map(|run| (run.name.as_str(), run.passed))
        .collect();
    assert_eq!(
        order,
        vec![("Beta", true), ("alpha", true), ("beta", true), ("beta", false)]
    );
    assert_eq!(snapshot.fixtures[2].actual_balances[0].balance, "1");
}

#[test]
fn reports_fail_with_the_first_bad_fixture() {
    let mut bad = no_op_fixture("bad", "1");
    bad.initial_accounts[0].balance = "one".to_string();
    let fixtures = vec![no_op_fixture("good", "1"), bad];
    let err = generate_reports(&fixtures).expect_err("bad balance");
    assert_eq!(err, "invalid numeric value: one");
}

#[test]
fn text_order_is_character_order_with_prefix_first() {
    assert!(text_less("alpha", "zeta"));
    assert!(!text_less("zeta", "alpha"));
    assert!(text_less("abc", "abcd"));
    assert!(!text_less("abc", "abc"));
    assert!(text_less("Z", "a"));
    assert!(text_less("", "a"));
    assert!(text_less("a\u{e9}", "a\u{1f600}"));
}

#[test]
fn repeated_fixture_name_names_both_files() {
    let names = vec!["a".to_string(), "b".to_string(), "a".to_string()];
    let paths = vec!["x/1.json".to_string(), "x/2.json".to_string(), "x/3.json".to_string()];
    assert_eq!(
        check_new_fixture_name(&names, &paths),
        Err("duplicate fixture name 'a' in x/1.json and x/3.json".to_string())
    );
    assert_eq!(check_new_fixture_name(&names[..2].to_vec(), &paths[..2].to_vec()), Ok(()));
}

#[test]
fn failing_fixtures_fail_the_run() {
    assert_eq!(failure_verdict(0), Ok(()));
    assert_eq!(
        failure_verdict(3),
        Err("3 fixture(s) failed semantic checks; see snapshot output".to_string())
    );
}
