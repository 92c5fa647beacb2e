use k8sacc::account::{Account, Accounts};
use k8sacc::command::{CommandOutcome, CommandSpec};
use k8sacc::error::Error;
use k8sacc::params::Parameters;
use k8sacc::provider::Provider;
use std::cell::Cell;

fn account(alias: &str, provider: Provider, params: Vec<(&str, &str)>) -> Account {
    Account {
        alias: alias.to_owned(),
        provider,
        params: Parameters::from_iter(
            params.into_iter().map(|(name, value)| (name.to_owned(), value.to_owned())).collect(),
        ),
    }
}

#[test]
fn get_account() {
    let accounts = Accounts::new(vec![Account {
        alias: "john".to_owned(),
        provider: Provider::DigitalOcean,
        params: Default::default(),
    }]);

    assert_eq!(
        accounts.get("john").unwrap(),
        &Account {
            alias: "john".to_owned(),
            provider: Provider::DigitalOcean,
            params: Default::default(),
        }
    );
    assert!(accounts.get("doe").is_err());
}

#[test]
fn accounts_sorted() {
    let accounts = Accounts::new(vec![
        Account {
            alias: "john".to_owned(),
            provider: Provider::DigitalOcean,
            params: Default::default(),
        },
        Account {
            alias: "lucy".to_owned(),
            provider: Provider::EKS,
            params: Default::default(),
        },
        Account {
            alias: "albert".to_owned(),
            provider: Provider::DigitalOcean,
            params: Default::default(),
        },
    ]);

    assert_eq!(
        accounts.sorted(),
        vec![
            Account {
                alias: "albert".to_owned(),
                provider: Provider::DigitalOcean,
                params: Default::default(),
            },
            Account {
                alias: "john".to_owned(),
                provider: Provider::DigitalOcean,
                params: Default::default(),
            },
            Account {
                alias: "lucy".to_owned(),
                provider: Provider::EKS,
                params: Default::default(),
            },
        ]
    );
}

#[test]
fn an_unknown_alias_is_named_in_the_error() {
    let accounts = Accounts::new(vec![account("john", Provider::EKS, vec![])]);
    assert_eq!(accounts.get("doe"), Err(Error::UnknownAccount("doe".to_owned())));
    assert_eq!(accounts.get("John"), Err(Error::UnknownAccount("John".to_owned())));
    assert_eq!(accounts.get(""), Err(Error::UnknownAccount("".to_owned())));
    assert_eq!(
        Accounts::new(vec![]).get("john"),
        Err(Error::UnknownAccount("john".to_owned()))
    );
}

#[test]
fn the_first_of_two_accounts_with_one_alias_is_found() {
    let accounts = Accounts::new(vec![
        account("a", Provider::EKS, vec![("name", "zero")]),
        account("twin", Provider::EKS, vec![("name", "one")]),
        account("twin", Provider::DigitalOcean, vec![("cluster", "two")]),
    ]);
    assert_eq!(accounts.get("twin"), Ok(&account("twin", Provider::EKS, vec![("name", "one")])));
    assert_eq!(accounts.get("a"), Ok(&account("a", Provider::EKS, vec![("name", "zero")])));
}

#[test]
fn is_empty_tells_whether_accounts_are_held() {
    assert!(Accounts::new(vec![]).is_empty());
    assert!(!Accounts::new(vec![account("a", Provider::EKS, vec![])]).is_empty());
}

#[test]
fn sorting_keeps_the_order_of_equal_aliases() {
    let accounts = Accounts::new(vec![
        account("b", Provider::EKS, vec![("name", "1")]),
        account("a", Provider::EKS, vec![("name", "2")]),
        account("b", Provider::DigitalOcean, vec![("cluster", "3")]),
        account("a", Provider::DigitalOcean, vec![("cluster", "4")]),
        account("b", Provider::EKS, vec![("name", "5")]),
    ]);
    assert_eq!(
        accounts.sorted(),
        vec![
            account("a", Provider::EKS, vec![("name", "2")]),
            account("a", Provider::DigitalOcean, vec![("cluster", "4")]),
            account("b", Provider::EKS, vec![("name", "1")]),
            account("b", Provider::DigitalOcean, vec![("cluster", "3")]),
            account("b", Provider::EKS, vec![("name", "5")]),
        ]
    );
}

#[test]
fn sorting_agrees_with_the_order_of_strings() {
    let aliases = vec!["zeta", "Zeta", "", "alpha", "alp", "\u{e9}clair", "eclair", "10", "9", "\u{1f600}", "\u{ffff}"];
    let accounts =
        Accounts::new(aliases.iter().map(|alias| account(alias, Provider::EKS, vec![])).collect());
    let listed: Vec<String> = accounts.sorted().into_iter().map(|account| account.alias).collect();
    let mut expected: Vec<String> = aliases.iter().map(|alias| alias.to_string()).collect();
    expected.sort();
    assert_eq!(listed, expected);
    assert_eq!(listed[0], "");
    assert_eq!(listed[1], "10");
    assert_eq!(listed[10], "\u{1f600}");
}

#[test]
fn sorting_nothing_gives_nothing() {
    assert_eq!(Accounts::new(vec![]).sorted(), vec![]);
}

#[test]
fn activation_runs_the_command_of_the_account() {
    let john = account("john", Provider::DigitalOcean, vec![("cluster", "c1"), ("context", "ctx1")]);
    let seen: Cell<Option<CommandSpec>> = Cell::new(None);
    let result = john.activate(|command| {
        seen.set(Some(command));
        CommandOutcome::Exited { code: Some(0), stderr: vec![] }
    });
    assert_eq!(result, Ok(()));
    assert_eq!(
        seen.take(),
        Some(CommandSpec {
            program: "doctl".to_owned(),
            args: vec![
                "kubernetes".to_owned(),
                "cluster".to_owned(),
                "kubeconfig".to_owned(),
                "save".to_owned(),
                "c1".to_owned(),
                "--context".to_owned(),
                "ctx1".to_owned(),
            ],
        })
    );
    assert_eq!(john.params.get("cluster").unwrap(), "c1");
}

#[test]
fn activation_reports_the_failure_of_the_command() {
    let lucy = account("lucy", Provider::EKS, vec![("name", "n1")]);
    let result = lucy.activate(|_| CommandOutcome::Exited {
        code: Some(254),
        stderr: b"An error occurred (ResourceNotFoundException)\n".to_vec(),
    });
    assert_eq!(
        result,
        Err(Error::CommandFailed("An error occurred (ResourceNotFoundException)\n".to_owned()))
    );
}

#[test]
fn activation_without_the_required_parameter_runs_nothing() {
    let lucy = account("lucy", Provider::EKS, vec![("region", "eu-central-1")]);
    let ran = Cell::new(false);
    let result = lucy.activate(|_| {
        ran.set(true);
        CommandOutcome::Exited { code: Some(0), stderr: vec![] }
    });
    assert_eq!(result, Err(Error::MissingParameter("name".to_owned())));
    assert!(!ran.get());
}
