//! The commands this daemon gives the packet filter.
//!
//! A command is data: the library decides which command is due, the caller
//! runs `PROGRAM` with the command's arguments.

use vstd::prelude::*;
use crate::text::texts;

verus! {

/// The packet filter's command-line program.
pub const PROGRAM: &'static str = "nft";

/// A command for the packet filter.
#[derive(Clone, Debug, PartialEq, Eq)]
pub enum FirewallCommand {
    /// Create the table that holds this daemon's chain, if it is missing.
    CreateTable,
    /// Create the chain that holds this daemon's rules, if it is missing.
    CreateChain,
    /// List the rules of the chain.
    ListRules,
    /// List the rules of the chain with their handles.
    ListHandles,
    /// Add a rule that drops what comes from `address`.
    AddRule { address: String },
    /// Delete the rule with the given handle.
    DeleteRule { handle: String },
}

/// A command with its texts as character sequences.
pub enum CommandView {
    CreateTable,
    CreateChain,
    ListRules,
    ListHandles,
    AddRule { address: Seq<char> },
    DeleteRule { handle: Seq<char> },
}

impl View for FirewallCommand {
    type V = CommandView;

    open spec fn view(&self) -> CommandView {
        match self {
            FirewallCommand::CreateTable => CommandView::CreateTable,
            FirewallCommand::CreateChain => CommandView::CreateChain,
            FirewallCommand::ListRules => CommandView::ListRules,
            FirewallCommand::ListHandles => CommandView::ListHandles,
            FirewallCommand::AddRule { address } => CommandView::AddRule { address: address@ },
            FirewallCommand::DeleteRule { handle } => CommandView::DeleteRule { handle: handle@ },
        }
    }
}

/// The arguments with which `PROGRAM` carries out `command`.
pub open spec fn arguments(command: CommandView) -> Seq<Seq<char>> {
    match command {
        CommandView::CreateTable => seq!["add"@, "table"@, "bridge"@, "filter"@],
        CommandView::CreateChain => seq![
            "add"@,
            "chain"@,
            "bridge"@,
            "filter"@,
            "forward"@,
            "{type filter hook forward priority 0; }"@,
        ],
        CommandView::ListRules => seq!["list"@, "chain"@, "bridge"@, "filter"@, "forward"@],
        CommandView::ListHandles => seq![
            "--handle"@,
            "--numeric"@,
            "list"@,
            "chain"@,
            "bridge"@,
            "filter"@,
            "forward"@,
        ],
        CommandView::AddRule { address } => seq![
            "add"@,
            "rule"@,
            "bridge"@,
            "filter"@,
            "forward"@,
            "ip"@,
            "saddr"@,
            address,
            "drop"@,
        ],
        CommandView::DeleteRule { handle } => seq![
            "delete"@,
            "rule"@,
            "bridge"@,
            "filter"@,
            "forward"@,
            "handle"@,
            handle,
        ],
    }
}

/// Whether the daemon cannot go on once `command` has failed. Every rule
/// lives in the table and its chain, so their creation must succeed; a
/// listing, an addition or a deletion that fails is reported and survived.
pub open spec fn vital(command: CommandView) -> bool {
    command is CreateTable || command is CreateChain
}

/// The command that deletes the rule with `handle`; none for an empty handle.
pub open spec fn deletion(handle: Seq<char>) -> Option<CommandView> {
    if handle.len() == 0 {
        None
    } else {
        Some(CommandView::DeleteRule { handle })
    }
}

/// The view of an optional command.
pub open spec fn opt_command(command: Option<FirewallCommand>) -> Option<CommandView> {
    match command {
        Some(c) => Some(c@),
        None => None,
    }
}

fn word(argv: &mut Vec<String>, text: &str)
    ensures
        texts(final(argv)@) == texts(old(argv)@).push(text@),
{
    argv.push(text.to_owned());
    assert(texts(argv@) =~= texts(old(argv)@).push(text@));
}

fn chain(argv: &mut Vec<String>)
    ensures
        texts(final(argv)@) == texts(old(argv)@) + seq!["bridge"@, "filter"@, "forward"@],
{
    word(argv, "bridge");
    word(argv, "filter");
    word(argv, "forward");
    assert(texts(argv@) =~= texts(old(argv)@) + seq!["bridge"@, "filter"@, "forward"@]);
}

impl FirewallCommand {
    /// The arguments to run `PROGRAM` with.
    pub fn args(&self) -> (argv: Vec<String>)
        ensures
            texts(argv@) == arguments(self@),
    {
        let mut argv: Vec<String> = Vec::new();
        assert(texts(argv@) =~= Seq::<Seq<char>>::empty());
        match self {
            FirewallCommand::CreateTable => {
                word(&mut argv, "add");
                word(&mut argv, "table");
                word(&mut argv, "bridge");
                word(&mut argv, "filter");
            },
            FirewallCommand::CreateChain => {
                word(&mut argv, "add");
                word(&mut argv, "chain");
                chain(&mut argv);
                word(&mut argv, "{type filter hook forward priority 0; }");
            },
            FirewallCommand::ListRules => {
                word(&mut argv, "list");
                word(&mut argv, "chain");
                chain(&mut argv);
            },
            FirewallCommand::ListHandles => {
                word(&mut argv, "--handle");
                word(&mut argv, "--numeric");
                word(&mut argv, "list");
                word(&mut argv, "chain");
                chain(&mut argv);
            },
            FirewallCommand::AddRule { address } => {
                word(&mut argv, "add");
                word(&mut argv, "rule");
                chain(&mut argv);
                word(&mut argv, "ip");
                word(&mut argv, "saddr");
                word(&mut argv, address.as_str());
                word(&mut argv, "drop");
            },
            FirewallCommand::DeleteRule { handle } => {
                word(&mut argv, "delete");
                word(&mut argv, "rule");
                chain(&mut argv);
                word(&mut argv, "handle");
                word(&mut argv, handle.as_str());
            },
        }
        assert(texts(argv@) =~= arguments(self@));
        argv
    }

    /// Whether a failure of this command must stop the daemon.
    pub fn is_vital(&self) -> (yes: bool)
        ensures
            yes == vital(self@),
    {
        match self {
            FirewallCommand::CreateTable => true,
            FirewallCommand::CreateChain => true,
            _ => false,
        }
    }

    /// The command that deletes the rule with `handle`. An empty handle names
    /// no rule, and there is nothing to run.
    pub fn delete_rule(handle: &str) -> (command: Option<FirewallCommand>)
        ensures
            opt_command(command) == deletion(handle@),
    {
        if handle.is_empty() {
            None
        } else {
            Some(FirewallCommand::DeleteRule { handle: handle.to_owned() })
        }
    }

    /// The commands that prepare the packet filter before anything else
    /// runs: the table first, then the chain in it.
    pub fn setup() -> (commands: Vec<FirewallCommand>)
        ensures
            commands@.map_values(|c: FirewallCommand| c@) == seq![
                CommandView::CreateTable,
                CommandView::CreateChain,
            ],
    {
        let mut commands: Vec<FirewallCommand> = Vec::new();
        commands.push(FirewallCommand::CreateTable);
        commands.push(FirewallCommand::CreateChain);
        assert(commands@.map_values(|c: FirewallCommand| c@) =~= seq![
            CommandView::CreateTable,
            CommandView::CreateChain,
        ]);
        commands
    }
}

} // verus!
