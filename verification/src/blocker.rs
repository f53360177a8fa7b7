//! Firewall rules for single addresses.

use crate::text::texts;
use vstd::prelude::*;
use vstd::string::*;

verus! {

/// What to do with an `iptables` command, given by its arguments.
#[derive(Debug)]
pub enum Invocation {
    /// The command is not run; it counts as successful.
    DryRun(Vec<String>),
    /// The command is to be run.
    Execute(Vec<String>),
}

/// How an `iptables` command ended.
#[derive(Clone, Copy, Debug, PartialEq, Eq, Structural)]
pub enum CommandOutcome {
    /// It ended, successfully or not.
    Exited(bool),
    /// It could not be started.
    NotStarted,
}

/// The next step of removing a rule.
#[derive(Debug)]
pub enum UnblockStep {
    /// Run the command with these arguments, which tells whether the rule exists.
    Check(Vec<String>),
    /// Delete the rule; its outcome ends the removal.
    Delete(Invocation),
    /// The removal has ended, successfully or not.
    Done(bool),
}

/// The arguments of a command on the rule that drops what comes from an address.
pub open spec fn rule_args(operation: Seq<char>, chain: Seq<char>, address: Seq<char>) -> Seq<
    Seq<char>,
> {
    seq![operation, chain, "-s"@, address, "-j"@, "DROP"@]
}

/// Whether an invocation runs or only names the command with the given arguments.
pub open spec fn invokes(step: Invocation, dry_run: bool, args: Seq<Seq<char>>) -> bool {
    match step {
        Invocation::DryRun(given) => dry_run && texts(given@) == args,
        Invocation::Execute(given) => !dry_run && texts(given@) == args,
    }
}

/// Whether an invocation succeeded, given how its command ended, if it was run: a command that is
/// only named counts as successful, and one that is to be run must have been started and have
/// ended successfully.
pub open spec fn succeeded(step: Invocation, outcome: Option<CommandOutcome>) -> bool {
    match step {
        Invocation::DryRun(_) => true,
        Invocation::Execute(_) => outcome == Some(CommandOutcome::Exited(true)),
    }
}

/// Whether `step` is the first one of removing a rule: in a dry run the deletion is only named, and
/// else the rule is looked for before it is deleted.
pub open spec fn starts_removal(
    step: UnblockStep,
    dry_run: bool,
    chain: Seq<char>,
    address: Seq<char>,
) -> bool {
    match step {
        UnblockStep::Check(args) => !dry_run && texts(args@) == rule_args("-C"@, chain, address),
        UnblockStep::Delete(step) => dry_run && invokes(
            step,
            true,
            rule_args("-D"@, chain, address),
        ),
        UnblockStep::Done(_) => false,
    }
}

/// Whether `step` is the one after the rule was looked for: a missing rule needs no deletion, and
/// where the command could not be started the removal has failed.
pub open spec fn follows_check(
    step: UnblockStep,
    outcome: CommandOutcome,
    dry_run: bool,
    chain: Seq<char>,
    address: Seq<char>,
) -> bool {
    match outcome {
        CommandOutcome::Exited(true) => step matches UnblockStep::Delete(step) && invokes(
            step,
            dry_run,
            rule_args("-D"@, chain, address),
        ),
        CommandOutcome::Exited(false) => step == UnblockStep::Done(true),
        CommandOutcome::NotStarted => step == UnblockStep::Done(false),
    }
}

/// Drops traffic from single addresses by rules of one chain.
#[derive(Clone, Debug)]
pub struct IptablesBlocker {
    chain: String,
    dry_run: bool,
}

impl IptablesBlocker {
    /// The chain that holds the rules.
    pub closed spec fn chain_name(self) -> Seq<char> {
        self.chain@
    }

    /// Whether commands are only named, not run.
    pub closed spec fn is_dry_run(self) -> bool {
        self.dry_run
    }

    /// A blocker on a chain.
    pub fn new(chain: String, dry_run: bool) -> (blocker: IptablesBlocker)
        ensures
            blocker.chain_name() == chain@,
            blocker.is_dry_run() == dry_run,
    {
        IptablesBlocker { chain, dry_run }
    }

    /// Inserts the rule for an address.
    pub fn block(&self, ip_address: &str) -> (step: Invocation)
        ensures
            invokes(step, self.is_dry_run(), rule_args("-I"@, self.chain_name(), ip_address@)),
    {
        self.run(self.args("-I", ip_address))
    }

    /// The first step of removing the rule for an address: without a dry run the rule is looked
    /// for before it is deleted.
    pub fn unblock(&self, ip_address: &str) -> (step: UnblockStep)
        ensures
            starts_removal(step, self.is_dry_run(), self.chain_name(), ip_address@),
    {
        if self.dry_run {
            return UnblockStep::Delete(self.run(self.args("-D", ip_address)));
        }
        UnblockStep::Check(self.args("-C", ip_address))
    }

    /// The step after the rule was looked for: a missing rule needs no deletion, and where the
    /// command could not be started the removal has failed.
    pub fn after_check(&self, ip_address: &str, outcome: CommandOutcome) -> (step: UnblockStep)
        ensures
            follows_check(step, outcome, self.is_dry_run(), self.chain_name(), ip_address@),
    {
        match self.rule_exists(outcome) {
            Ok(true) => UnblockStep::Delete(self.run(self.args("-D", ip_address))),
            Ok(false) => UnblockStep::Done(true),
            Err(_) => UnblockStep::Done(false),
        }
    }

    /// What the command that looks for a rule has told.
    pub fn rule_exists(&self, outcome: CommandOutcome) -> (exists_rule: Result<bool, ()>)
        ensures
            exists_rule == match outcome {
                CommandOutcome::Exited(success) => Ok::<bool, ()>(success),
                CommandOutcome::NotStarted => Err::<bool, ()>(()),
            },
    {
        match outcome {
            CommandOutcome::Exited(success) => Ok(success),
            CommandOutcome::NotStarted => Err(()),
        }
    }

    /// A command with the given arguments.
    pub fn run(&self, args: Vec<String>) -> (step: Invocation)
        ensures
            invokes(step, self.is_dry_run(), texts(args@)),
    {
        if self.dry_run {
            Invocation::DryRun(args)
        } else {
            Invocation::Execute(args)
        }
    }

    /// Whether an invocation succeeded, given how its command ended, if it was run.
    pub fn completed(&self, step: &Invocation, outcome: Option<CommandOutcome>) -> (success: bool)
        ensures
            success == succeeded(*step, outcome),
    {
        match step {
            Invocation::DryRun(_) => true,
            Invocation::Execute(_) => match outcome {
                Some(CommandOutcome::Exited(success)) => success,
                Some(CommandOutcome::NotStarted) => false,
                None => false,
            },
        }
    }

    fn args(&self, operation: &str, ip_address: &str) -> (args: Vec<String>)
        ensures
            texts(args@) == rule_args(operation@, self.chain_name(), ip_address@),
    {
        let mut args: Vec<String> = Vec::new();
        args.push(operation.to_owned());
        args.push(self.chain.clone());
        args.push("-s".to_owned());
        args.push(ip_address.to_owned());
        args.push("-j".to_owned());
        args.push("DROP".to_owned());
        assert(texts(args@) =~= rule_args(operation@, self.chain_name(), ip_address@));
        args
    }
}

/// Blocking an address in a dry run runs nothing and succeeds. Else it runs one command, which
/// inserts the rule, and succeeds if and only if that command was started and ended successfully.
pub proof fn law_block(
    step: Invocation,
    dry_run: bool,
    chain: Seq<char>,
    address: Seq<char>,
    outcome: Option<CommandOutcome>,
)
    requires
        invokes(step, dry_run, rule_args("-I"@, chain, address)),
    ensures
        dry_run ==> step is DryRun && succeeded(step, outcome),
        !dry_run ==> (step matches Invocation::Execute(args) && texts(args@) == rule_args(
            "-I"@,
            chain,
            address,
        )),
        !dry_run ==> (succeeded(step, outcome) <==> outcome == Some(CommandOutcome::Exited(true))),
{
}

/// Unblocking an address in a dry run runs nothing and succeeds. Else the rule is looked for first:
/// where that cannot be started, the removal fails and nothing is deleted; where the rule is
/// missing, it succeeds and nothing is deleted; and where the rule is there, the deletion is run,
/// and the removal succeeds if and only if it was started and ended successfully.
pub proof fn law_unblock(
    first: UnblockStep,
    check: CommandOutcome,
    second: UnblockStep,
    deletion: Option<CommandOutcome>,
    dry_run: bool,
    chain: Seq<char>,
    address: Seq<char>,
)
    requires
        starts_removal(first, dry_run, chain, address),
        first is Check ==> follows_check(second, check, dry_run, chain, address),
    ensures
        dry_run ==> (first matches UnblockStep::Delete(step) && step is DryRun && succeeded(
            step,
            deletion,
        )),
        !dry_run ==> (first matches UnblockStep::Check(args) && texts(args@) == rule_args(
            "-C"@,
            chain,
            address,
        )),
        !dry_run && check == CommandOutcome::NotStarted ==> second == UnblockStep::Done(false),
        !dry_run && check == CommandOutcome::Exited(false) ==> second == UnblockStep::Done(true),
        !dry_run && check == CommandOutcome::Exited(true) ==> {
            &&& second matches UnblockStep::Delete(Invocation::Execute(args))
            &&& texts(args@) == rule_args("-D"@, chain, address)
            &&& (succeeded(second->Delete_0, deletion) <==> deletion == Some(
                CommandOutcome::Exited(true),
            ))
        },
{
}

/// The command acts on the rule of the chain that drops what comes from the address.
pub proof fn law_rules_name_the_address(operation: Seq<char>, chain: Seq<char>, address: Seq<char>)
    ensures
        ({
            let args = rule_args(operation, chain, address);
            &&& args.len() == 6
            &&& args[0] == operation && args[1] == chain
            &&& args[2] == "-s"@ && args[3] == address
            &&& args[4] == "-j"@ && args[5] == "DROP"@
        }),
{
}

} // verus!
