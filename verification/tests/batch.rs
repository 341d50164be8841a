use devaforge::{plan_batch, BankError, BatchReport, ErrorKind};

fn failure(message: String) -> Result<(), BankError> {
    Err(BankError { kind: ErrorKind::NotFound, message })
}

fn dirs(list: &[&str]) -> Vec<String> {
    list.iter().map(|s| s.to_string()).collect()
}

#[test]
fn one_of_three_banks_fails() {
    let order = plan_batch(&dirs(&["generated/banks/ann.c", "generated/banks/ann.a", "generated/banks/ann.b"])).unwrap();
    assert_eq!(order, dirs(&["generated/banks/ann.a", "generated/banks/ann.b", "generated/banks/ann.c"]));
    let mut report = BatchReport::new(order.len());
    let mut built = Vec::new();
    for (i, dir) in order.iter().enumerate() {
        let outcome = if i == 1 {
            failure(format!("Audio directory not found: {}/audio", dir))
        } else {
            built.push(dir.clone());
            Ok(())
        };
        report.record(dir, &outcome);
    }
    assert_eq!(built, dirs(&["generated/banks/ann.a", "generated/banks/ann.c"]));
    assert_eq!(
        report.finish(),
        Err("Some banks failed (1/3):\n - generated/banks/ann.b -> Audio directory not found: generated/banks/ann.b/audio"
            .to_string())
    );
}

#[test]
fn a_batch_without_failures_reports_the_number_built() {
    let mut report = BatchReport::new(2);
    report.record("a", &Ok(()));
    report.record("b", &Ok(()));
    assert_eq!(report.finish(), Ok(2));
    assert_eq!(BatchReport::new(0).finish(), Ok(0));
}

#[test]
fn every_failure_has_its_line() {
    let mut report = BatchReport::new(12);
    for i in 0..11 {
        report.record(&format!("bank{}", i), &failure(format!("e{}", i)));
    }
    let message = report.finish().unwrap_err();
    assert!(message.starts_with("Some banks failed (11/12):\n - bank0 -> e0\n - bank1 -> e1\n - "));
    assert!(message.ends_with("\n - bank10 -> e10"));
    assert_eq!(message.lines().count(), 12);
}

#[test]
fn nothing_to_build_is_an_error() {
    let e = plan_batch(&Vec::new()).unwrap_err();
    assert_eq!(e.kind, ErrorKind::NotFound);
    assert_eq!(e.message, "No banks to build (generated/banks is empty)");
}

#[test]
fn banks_are_built_in_the_order_of_their_paths() {
    let order = plan_batch(&dirs(&["b/z", "b/Z", "b/a.b", "b/a", "b/a", "b/\u{e9}"])).unwrap();
    assert_eq!(order, dirs(&["b/Z", "b/a", "b/a", "b/a.b", "b/z", "b/\u{e9}"]));
}

#[test]
fn a_failure_of_any_kind_is_reported_by_its_message() {
    let mut report = BatchReport::new(2);
    report.record("banks/a", &Err(BankError { kind: ErrorKind::IoFailure, message: "Failed to read bank.toml: denied".to_string() }));
    report.record("banks/b", &Err(BankError { kind: ErrorKind::MalformedInput, message: "Invalid TOML: x".to_string() }));
    assert_eq!(
        report.finish(),
        Err("Some banks failed (2/2):\n - banks/a -> Failed to read bank.toml: denied\n - banks/b -> Invalid TOML: x".to_string())
    );
}
