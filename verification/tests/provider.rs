use k8sacc::command::{verdict, CommandOutcome, CommandSpec};
use k8sacc::error::Error;
use k8sacc::params::{DigitalOceanParameters, EksParameters, Parameters};
use k8sacc::provider::Provider;
use k8sacc::text::{precedes, rank, Rank};
use std::cmp::Ordering;

fn strings(items: &[&str]) -> Vec<String> {
    items.iter().map(|item| item.to_string()).collect()
}

fn params(pairs: &[(&str, &str)]) -> Parameters {
    Parameters::from_iter(
        pairs.iter().map(|(name, value)| (name.to_string(), value.to_string())).collect(),
    )
}

#[test]
fn digital_ocean_command_with_context() {
    let record = DigitalOceanParameters { cluster: "c1".to_owned(), context: Some("ctx1".to_owned()) };
    assert_eq!(
        record.command(),
        CommandSpec {
            program: "doctl".to_owned(),
            args: strings(&["kubernetes", "cluster", "kubeconfig", "save", "c1", "--context", "ctx1"]),
        }
    );
}

#[test]
fn digital_ocean_command_without_context() {
    let record = DigitalOceanParameters { cluster: "c1".to_owned(), context: None };
    assert_eq!(
        record.command(),
        CommandSpec {
            program: "doctl".to_owned(),
            args: strings(&["kubernetes", "cluster", "kubeconfig", "save", "c1"]),
        }
    );
}

#[test]
fn eks_command_with_profile_only() {
    let record = EksParameters { name: "n1".to_owned(), region: None, profile: Some("p1".to_owned()) };
    assert_eq!(
        record.command(),
        CommandSpec {
            program: "aws".to_owned(),
            args: strings(&["eks", "update-kubeconfig", "--name", "n1", "--profile", "p1"]),
        }
    );
}

#[test]
fn eks_command_with_region_only() {
    let record = EksParameters { name: "n1".to_owned(), region: Some("r1".to_owned()), profile: None };
    assert_eq!(
        record.command(),
        CommandSpec {
            program: "aws".to_owned(),
            args: strings(&["eks", "update-kubeconfig", "--name", "n1", "--region", "r1"]),
        }
    );
}

#[test]
fn eks_command_puts_region_before_profile() {
    let record = EksParameters {
        name: "n1".to_owned(),
        region: Some("r1".to_owned()),
        profile: Some("p1".to_owned()),
    };
    assert_eq!(
        record.command(),
        CommandSpec {
            program: "aws".to_owned(),
            args: strings(&["eks", "update-kubeconfig", "--name", "n1", "--region", "r1", "--profile", "p1"]),
        }
    );
}

#[test]
fn eks_command_with_name_only() {
    let record = EksParameters { name: "n1".to_owned(), region: None, profile: None };
    assert_eq!(
        record.command(),
        CommandSpec { program: "aws".to_owned(), args: strings(&["eks", "update-kubeconfig", "--name", "n1"]) }
    );
}

#[test]
fn a_provider_builds_its_own_command() {
    let both = [("cluster", "c"), ("name", "n"), ("context", "x"), ("profile", "p")];
    assert_eq!(
        Provider::DigitalOcean.command(params(&both)),
        Ok(CommandSpec {
            program: "doctl".to_owned(),
            args: strings(&["kubernetes", "cluster", "kubeconfig", "save", "c", "--context", "x"]),
        })
    );
    assert_eq!(
        Provider::EKS.command(params(&both)),
        Ok(CommandSpec {
            program: "aws".to_owned(),
            args: strings(&["eks", "update-kubeconfig", "--name", "n", "--profile", "p"]),
        })
    );
}

#[test]
fn a_provider_names_its_missing_parameter() {
    assert_eq!(
        Provider::DigitalOcean.command(params(&[("name", "n")])),
        Err(Error::MissingParameter("cluster".to_owned()))
    );
    assert_eq!(
        Provider::EKS.command(params(&[("cluster", "c")])),
        Err(Error::MissingParameter("name".to_owned()))
    );
}

#[test]
fn providers_have_fixed_codes() {
    assert_eq!(Provider::DigitalOcean.code(), "do");
    assert_eq!(Provider::EKS.code(), "eks");
    assert_eq!(Provider::from_code("do"), Some(Provider::DigitalOcean));
    assert_eq!(Provider::from_code("eks"), Some(Provider::EKS));
    assert_eq!(Provider::from_code(Provider::DigitalOcean.code()), Some(Provider::DigitalOcean));
    assert_eq!(Provider::from_code(Provider::EKS.code()), Some(Provider::EKS));
}

#[test]
fn other_codes_stand_for_no_provider() {
    assert_eq!(Provider::from_code(""), None);
    assert_eq!(Provider::from_code("DO"), None);
    assert_eq!(Provider::from_code("Eks"), None);
    assert_eq!(Provider::from_code("d"), None);
    assert_eq!(Provider::from_code("doo"), None);
    assert_eq!(Provider::from_code("eks "), None);
    assert_eq!(Provider::from_code("gke"), None);
}

#[test]
fn exit_status_zero_is_success() {
    assert_eq!(verdict(Some(0), "warning: ignored".to_owned()), Ok(()));
    assert_eq!(CommandOutcome::Exited { code: Some(0), stderr: b"noise".to_vec() }.into_result(), Ok(()));
    assert_eq!(CommandOutcome::Exited { code: Some(0), stderr: vec![] }.into_result(), Ok(()));
}

#[test]
fn another_exit_status_is_a_failure_with_the_diagnostics() {
    assert_eq!(verdict(Some(1), "boom".to_owned()), Err(Error::CommandFailed("boom".to_owned())));
    assert_eq!(verdict(Some(-1), "".to_owned()), Err(Error::CommandFailed("".to_owned())));
    assert_eq!(verdict(None, "killed".to_owned()), Err(Error::CommandFailed("killed".to_owned())));
    assert_eq!(
        CommandOutcome::Exited { code: Some(2), stderr: b"Error: cluster not found\n".to_vec() }.into_result(),
        Err(Error::CommandFailed("Error: cluster not found\n".to_owned()))
    );
    assert_eq!(
        CommandOutcome::Exited { code: None, stderr: "d\u{e9}connect\u{e9}".as_bytes().to_vec() }.into_result(),
        Err(Error::CommandFailed("d\u{e9}connect\u{e9}".to_owned()))
    );
}

#[test]
fn undecodable_diagnostics_are_replaced() {
    assert_eq!(
        CommandOutcome::Exited { code: Some(1), stderr: vec![b'a', 0xff, b'b'] }.into_result(),
        Err(Error::CommandFailed("a\u{fffd}b".to_owned()))
    );
    assert_eq!(
        CommandOutcome::Exited { code: Some(1), stderr: vec![0xe2, 0x82] }.into_result(),
        Err(Error::CommandFailed("\u{fffd}".to_owned()))
    );
}

#[test]
fn a_command_that_did_not_start_is_a_failure() {
    assert_eq!(
        CommandOutcome::NotLaunched { reason: "No such file or directory (os error 2)".to_owned() }.into_result(),
        Err(Error::CommandFailed("No such file or directory (os error 2)".to_owned()))
    );
}

#[test]
fn activate_account_judges_the_run() {
    let ok = Provider::EKS.activate_account(params(&[("name", "n1"), ("profile", "p1")]), |command| {
        assert_eq!(command.program, "aws");
        assert_eq!(command.args, strings(&["eks", "update-kubeconfig", "--name", "n1", "--profile", "p1"]));
        CommandOutcome::Exited { code: Some(0), stderr: b"ignored".to_vec() }
    });
    assert_eq!(ok, Ok(()));

    let failed = Provider::DigitalOcean.activate_account(params(&[("cluster", "c1")]), |_| {
        CommandOutcome::Exited { code: Some(1), stderr: b"Error: unauthorized".to_vec() }
    });
    assert_eq!(failed, Err(Error::CommandFailed("Error: unauthorized".to_owned())));

    let not_started = Provider::DigitalOcean.activate_account(params(&[("cluster", "c1")]), |_| {
        CommandOutcome::NotLaunched { reason: "permission denied".to_owned() }
    });
    assert_eq!(not_started, Err(Error::CommandFailed("permission denied".to_owned())));
}

#[test]
fn activate_account_fails_before_the_run() {
    let result = Provider::DigitalOcean.activate_account(params(&[]), |_| {
        panic!("no command should have been run");
    });
    assert_eq!(result, Err(Error::MissingParameter("cluster".to_owned())));
}

#[test]
fn rank_orders_texts_by_code_point() {
    assert_eq!(rank("", ""), Rank::Same);
    assert_eq!(rank("", "a"), Rank::Before);
    assert_eq!(rank("a", ""), Rank::After);
    assert_eq!(rank("abc", "abc"), Rank::Same);
    assert_eq!(rank("abc", "abd"), Rank::Before);
    assert_eq!(rank("abd", "abc"), Rank::After);
    assert_eq!(rank("ab", "abc"), Rank::Before);
    assert_eq!(rank("abc", "ab"), Rank::After);
    assert_eq!(rank("Z", "a"), Rank::Before);
    assert_eq!(rank("z", "\u{e9}"), Rank::Before);
    assert_eq!(rank("\u{ffff}", "\u{10000}"), Rank::Before);
    assert!(precedes("albert", "john"));
    assert!(!precedes("john", "john"));
    assert!(!precedes("lucy", "john"));
}

#[test]
fn rank_agrees_with_the_order_of_strings() {
    let samples = ["", "a", "ab", "b", "B", "\u{e9}", "e\u{301}", "\u{7ff}", "\u{800}", "\u{ffff}", "\u{10000}", "\u{1f600}", "~"];
    for left in samples {
        for right in samples {
            let expected = match left.cmp(right) {
                Ordering::Less => Rank::Before,
                Ordering::Equal => Rank::Same,
                Ordering::Greater => Rank::After,
            };
            assert_eq!(rank(left, right), expected);
            assert_eq!(precedes(left, right), left < right);
        }
    }
}
