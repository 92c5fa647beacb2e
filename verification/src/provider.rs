//! The supported providers, and the command line by which each of them
//! fetches the cluster configuration of an account.

use vstd::prelude::*;
use crate::command::{texts, verdict_of, CommandOutcome, CommandSpec, CommandSpecView};
use crate::error::{result_view, Error, ErrorView};
use crate::params::{
    digital_ocean_of, eks_of, option_text, DigitalOceanParameters, DigitalOceanParametersView,
    EksParameters, EksParametersView, Parameters,
};
use crate::text::{rank, Rank};

verus! {

/// The providers whose accounts can be activated.
#[derive(Debug, PartialEq, Eq)]
pub enum Provider {
    /// DigitalOcean
    DigitalOcean,
    /// Amazon EKS
    EKS,
}

/// The short code under which a provider stands in a configuration document.
pub open spec fn code_of(provider: Provider) -> Seq<char> {
    match provider {
        Provider::DigitalOcean => "do"@,
        Provider::EKS => "eks"@,
    }
}

/// The provider that a short code stands for, if it stands for one.
pub open spec fn provider_of(code: Seq<char>) -> Option<Provider> {
    if code == "do"@ {
        Some(Provider::DigitalOcean)
    } else if code == "eks"@ {
        Some(Provider::EKS)
    } else {
        None
    }
}

/// An option with its argument, or nothing where the argument is absent.
pub open spec fn flag(name: Seq<char>, value: Option<Seq<char>>) -> Seq<Seq<char>> {
    match value {
        Some(value) => seq![name, value],
        None => Seq::empty(),
    }
}

/// `doctl kubernetes cluster kubeconfig save <cluster> [--context <context>]`
pub open spec fn digital_ocean_command(params: DigitalOceanParametersView) -> CommandSpecView {
    CommandSpecView {
        program: "doctl"@,
        args: seq!["kubernetes"@, "cluster"@, "kubeconfig"@, "save"@, params.cluster] + flag(
            "--context"@,
            params.context,
        ),
    }
}

/// `aws eks update-kubeconfig --name <name> [--region <region>] [--profile <profile>]`
pub open spec fn eks_command(params: EksParametersView) -> CommandSpecView {
    CommandSpecView {
        program: "aws"@,
        args: seq!["eks"@, "update-kubeconfig"@, "--name"@, params.name] + flag(
            "--region"@,
            params.region,
        ) + flag("--profile"@, params.profile),
    }
}

/// The command that activates an account of `provider` with the parameters
/// `map`, or the failure of reading the provider's record out of them.
pub open spec fn command_of(provider: Provider, map: Map<Seq<char>, Seq<char>>) -> Result<
    CommandSpecView,
    ErrorView,
> {
    match provider {
        Provider::DigitalOcean => match digital_ocean_of(map) {
            Ok(params) => Ok(digital_ocean_command(params)),
            Err(e) => Err(e),
        },
        Provider::EKS => match eks_of(map) {
            Ok(params) => Ok(eks_command(params)),
            Err(e) => Err(e),
        },
    }
}

/// Appends an option and its argument where the argument is present.
fn push_flag(args: &mut Vec<String>, name: &str, value: Option<String>)
    ensures
        texts(final(args)@) == texts(old(args)@) + flag(name@, option_text(value)),
{
    let ghost before = args@;
    match value {
        Some(value) => {
            args.push(name.to_owned());
            args.push(value);
            assert(texts(args@) =~= texts(before) + seq![name@, value@]);
        },
        None => {
            assert(texts(args@) =~= texts(before) + Seq::<Seq<char>>::empty());
        },
    }
}

impl DigitalOceanParameters {
    /// The command that saves the cluster's configuration.
    pub fn command(self) -> (c: CommandSpec)
        ensures
            c@ == digital_ocean_command(self@),
    {
        let mut args: Vec<String> = Vec::new();
        args.push("kubernetes".to_owned());
        args.push("cluster".to_owned());
        args.push("kubeconfig".to_owned());
        args.push("save".to_owned());
        args.push(self.cluster);
        assert(texts(args@) =~= seq![
            "kubernetes"@,
            "cluster"@,
            "kubeconfig"@,
            "save"@,
            self.cluster@,
        ]);
        push_flag(&mut args, "--context", self.context);
        CommandSpec { program: "doctl".to_owned(), args }
    }
}

impl EksParameters {
    /// The command that updates the local configuration for the cluster.
    pub fn command(self) -> (c: CommandSpec)
        ensures
            c@ == eks_command(self@),
    {
        let mut args: Vec<String> = Vec::new();
        args.push("eks".to_owned());
        args.push("update-kubeconfig".to_owned());
        args.push("--name".to_owned());
        args.push(self.name);
        assert(texts(args@) =~= seq!["eks"@, "update-kubeconfig"@, "--name"@, self.name@]);
        push_flag(&mut args, "--region", self.region);
        push_flag(&mut args, "--profile", self.profile);
        CommandSpec { program: "aws".to_owned(), args }
    }
}

impl Provider {
    /// The short code under which the provider stands in a configuration
    /// document.
    pub fn code(&self) -> (code: &'static str)
        ensures
            code@ == code_of(*self),
    {
        match self {
            Provider::DigitalOcean => "do",
            Provider::EKS => "eks",
        }
    }

    /// The provider that a short code stands for.
    pub fn from_code(code: &str) -> (r: Option<Provider>)
        ensures
            r == provider_of(code@),
    {
        if rank(code, "do") == Rank::Same {
            Some(Provider::DigitalOcean)
        } else if rank(code, "eks") == Rank::Same {
            Some(Provider::EKS)
        } else {
            None
        }
    }

    /// Reads the provider's record out of `params` and builds the command
    /// that activates the account.
    pub fn command(&self, params: Parameters) -> (r: Result<CommandSpec, Error>)
        ensures
            result_view(r) == command_of(*self, params@),
    {
        match self {
            Provider::DigitalOcean => {
                match DigitalOceanParameters::try_from(params) {
                    Ok(record) => Ok(record.command()),
                    Err(e) => Err(e),
                }
            },
            Provider::EKS => {
                match EksParameters::try_from(params) {
                    Ok(record) => Ok(record.command()),
                    Err(e) => Err(e),
                }
            },
        }
    }

    /// Activates an account of this provider: builds the command from
    /// `params`, has `run` execute it, and judges how it ended. Where the
    /// parameters do not yield a command, `run` is not called.
    pub fn activate_account<F>(&self, params: Parameters, run: F) -> (r: Result<(), Error>)
        where F: FnOnce(CommandSpec) -> CommandOutcome
        requires
            forall|c: CommandSpec|
                command_of(*self, params@) == Ok::<CommandSpecView, ErrorView>(c@)
                    ==> #[trigger] call_requires(run, (c,)),
        ensures
            match command_of(*self, params@) {
                Ok(command) => exists|c: CommandSpec, outcome: CommandOutcome|
                    c@ == command && #[trigger] call_ensures(run, (c,), outcome) && result_view(r)
                        == verdict_of(outcome),
                Err(e) => result_view(r) == Err::<(), ErrorView>(e),
            },
    {
        match self.command(params) {
            Ok(command) => {
                let outcome = run(command);
                outcome.into_result()
            },
            Err(e) => Err(e),
        }
    }
}

/// Each provider is found again under its own code.
pub proof fn lemma_code_round_trip(provider: Provider)
    ensures
        provider_of(code_of(provider)) == Some(provider),
{
    reveal_strlit("do");
    reveal_strlit("eks");
    assert("do"@.len() == 2);
    assert("eks"@.len() == 3);
}

/// A code stands for a provider only where it is that provider's code.
pub proof fn lemma_code_is_exact(code: Seq<char>, provider: Provider)
    ensures
        provider_of(code) == Some(provider) <==> code == code_of(provider),
{
    lemma_code_round_trip(provider);
}

} // verus!
