//! The command-line surface: options and their parser.
//!
//! The global broker option precedes the subcommand; flag values follow
//! their flag as the next argument.

pub mod pull;
pub mod push;
pub mod topics;

use vstd::prelude::*;

use crate::cli::pull::Pull;
use crate::cli::push::Push;
use crate::cli::topics::CreateTopic;
use crate::cli::topics::DeleteTopic;
use crate::cli::topics::ListTopics;
use crate::cli::topics::Topics;
use crate::cli::topics::TopicsSubCommand;
use crate::models::spec_split_commas;
use crate::models::split_commas;
use crate::models::str_views;

verus! {

/// Why a command line was rejected.
#[derive(Clone, Copy, Debug, PartialEq, Eq, Structural)]
pub enum CliError {
    MissingSubcommand,
    UnknownSubcommand,
    MissingValue,
    UnexpectedArgument,
}

/// The parsed command line: the bootstrap broker list, if given, and the
/// requested operation.
#[derive(Debug)]
pub struct Options {
    pub brokers: Option<Vec<String>>,
    pub sub_cmd: RootSubCommand,
}

/// The operation the command line requests.
#[derive(Debug)]
pub enum RootSubCommand {
    Topics(Topics),
    Push(Push),
    Pull(Pull),
}

/// The mathematical content of [`Options`].
pub struct OptionsView {
    pub brokers: Option<Seq<Seq<char>>>,
    pub sub: SubView,
}

/// The mathematical content of [`RootSubCommand`].
pub enum SubView {
    TopicsV(TopicsSubView),
    PushV(Seq<char>),
    PullV(Seq<Seq<char>>),
}

/// The mathematical content of a topics subcommand.
pub enum TopicsSubView {
    CreateV(Seq<char>),
    DeleteV(Seq<char>),
    ListV(bool),
}

impl View for RootSubCommand {
    type V = SubView;

    open spec fn view(&self) -> SubView {
        match self {
            RootSubCommand::Topics(t) => SubView::TopicsV(
                match t.sub_cmd {
                    TopicsSubCommand::Create(ref ct) => TopicsSubView::CreateV(ct.topic_name@),
                    TopicsSubCommand::Delete(ref dt) => TopicsSubView::DeleteV(dt.topic_name@),
                    TopicsSubCommand::List(ref lt) => TopicsSubView::ListV(lt.verbose),
                },
            ),
            RootSubCommand::Push(p) => SubView::PushV(p.topic_name@),
            RootSubCommand::Pull(p) => SubView::PullV(str_views(p.topic_names@)),
        }
    }
}

impl View for Options {
    type V = OptionsView;

    open spec fn view(&self) -> OptionsView {
        OptionsView {
            brokers: match self.brokers {
                Some(ref b) => Some(str_views(b@)),
                None => None,
            },
            sub: self.sub_cmd@,
        }
    }
}

/// Is the argument this flag, in short or long form?
pub open spec fn is_flag(a: Seq<char>, short: Seq<char>, long: Seq<char>) -> bool {
    a == short || a == long
}

/// What a topics subcommand line means.
pub open spec fn spec_parse_topics(args: Seq<Seq<char>>) -> Result<TopicsSubView, CliError> {
    if args.len() == 0 {
        Err(CliError::MissingSubcommand)
    } else if args[0] == "create"@ {
        if args.len() == 2 {
            Ok(TopicsSubView::CreateV(args[1]))
        } else if args.len() < 2 {
            Err(CliError::MissingValue)
        } else {
            Err(CliError::UnexpectedArgument)
        }
    } else if args[0] == "delete"@ {
        if args.len() == 2 {
            Ok(TopicsSubView::DeleteV(args[1]))
        } else if args.len() < 2 {
            Err(CliError::MissingValue)
        } else {
            Err(CliError::UnexpectedArgument)
        }
    } else if args[0] == "list"@ {
        if args.len() == 1 {
            Ok(TopicsSubView::ListV(false))
        } else if args.len() == 2 && is_flag(args[1], "-v"@, "--verbose"@) {
            Ok(TopicsSubView::ListV(true))
        } else {
            Err(CliError::UnexpectedArgument)
        }
    } else {
        Err(CliError::UnknownSubcommand)
    }
}

/// What a subcommand line means.
pub open spec fn spec_parse_sub(args: Seq<Seq<char>>) -> Result<SubView, CliError> {
    if args.len() == 0 {
        Err(CliError::MissingSubcommand)
    } else if args[0] == "topics"@ {
        match spec_parse_topics(args.drop_first()) {
            Ok(t) => Ok(SubView::TopicsV(t)),
            Err(e) => Err(e),
        }
    } else if args[0] == "push"@ {
        if args.len() >= 2 && is_flag(args[1], "-t"@, "--topic"@) {
            if args.len() == 3 {
                Ok(SubView::PushV(args[2]))
            } else if args.len() < 3 {
                Err(CliError::MissingValue)
            } else {
                Err(CliError::UnexpectedArgument)
            }
        } else if args.len() < 2 {
            Err(CliError::MissingValue)
        } else {
            Err(CliError::UnexpectedArgument)
        }
    } else if args[0] == "pull"@ {
        if args.len() >= 2 && is_flag(args[1], "-t"@, "--topics"@) {
            if args.len() == 3 {
                Ok(SubView::PullV(spec_split_commas(args[2])))
            } else if args.len() < 3 {
                Err(CliError::MissingValue)
            } else {
                Err(CliError::UnexpectedArgument)
            }
        } else if args.len() < 2 {
            Err(CliError::MissingValue)
        } else {
            Err(CliError::UnexpectedArgument)
        }
    } else {
        Err(CliError::UnknownSubcommand)
    }
}

/// What a whole command line means: an optional leading broker flag with a
/// comma-delimited value, then the subcommand.
pub open spec fn spec_parse_options(args: Seq<Seq<char>>) -> Result<OptionsView, CliError> {
    if args.len() >= 1 && is_flag(args[0], "-b"@, "--brokers"@) {
        if args.len() >= 2 {
            match spec_parse_sub(args.subrange(2, args.len() as int)) {
                Ok(sub) => Ok(OptionsView { brokers: Some(spec_split_commas(args[1])), sub }),
                Err(e) => Err(e),
            }
        } else {
            Err(CliError::MissingValue)
        }
    } else {
        match spec_parse_sub(args) {
            Ok(sub) => Ok(OptionsView { brokers: None, sub }),
            Err(e) => Err(e),
        }
    }
}

/// Does the argument equal the literal, character for character?
fn arg_is(a: &String, lit: &str) -> (r: bool)
    ensures
        r == (a@ == lit@),
{
    let t = String::from_str(lit);
    *a == t
}

/// Parses the subcommand that starts at `from`.
fn parse_sub(args: &Vec<String>, from: usize) -> (r: Result<RootSubCommand, CliError>)
    requires
        from <= args@.len(),
    ensures
        (match spec_parse_sub(str_views(args@).subrange(from as int, args@.len() as int)) {
            Ok(sub) => r matches Ok(o) && o@ == sub,
            Err(e) => r == Err::<RootSubCommand, CliError>(e),
        }),
{
    let n = args.len();
    let ghost av = str_views(args@).subrange(from as int, args@.len() as int);
    proof {
        assert forall|x: int| 0 <= x < av.len() implies #[trigger] av[x] == args@[from + x]@ by {
            assert(str_views(args@)[from + x] == args@[from + x]@);
        }
    }
    if from >= n {
        return Err(CliError::MissingSubcommand);
    }
    if arg_is(&args[from], "topics") {
        proof {
            assert(av.drop_first() =~= str_views(args@).subrange(
                from as int + 1,
                args@.len() as int,
            ));
        }
        if from + 1 >= n {
            return Err(CliError::MissingSubcommand);
        }
        if arg_is(&args[from + 1], "create") || arg_is(&args[from + 1], "delete") {
            let create = arg_is(&args[from + 1], "create");
            if n - (from + 1) == 2 {
                let name = args[from + 2].clone();
                let sub = if create {
                    TopicsSubCommand::Create(CreateTopic { topic_name: name })
                } else {
                    TopicsSubCommand::Delete(DeleteTopic { topic_name: name })
                };
                Ok(RootSubCommand::Topics(Topics { sub_cmd: sub }))
            } else if n - (from + 1) < 2 {
                Err(CliError::MissingValue)
            } else {
                Err(CliError::UnexpectedArgument)
            }
        } else if arg_is(&args[from + 1], "list") {
            if n - (from + 1) == 1 {
                Ok(RootSubCommand::Topics(Topics {
                    sub_cmd: TopicsSubCommand::List(ListTopics { verbose: false }),
                }))
            } else if n - (from + 1) == 2 && (arg_is(&args[from + 2], "-v") || arg_is(
                &args[from + 2],
                "--verbose",
            )) {
                Ok(RootSubCommand::Topics(Topics {
                    sub_cmd: TopicsSubCommand::List(ListTopics { verbose: true }),
                }))
            } else {
                Err(CliError::UnexpectedArgument)
            }
        } else {
            Err(CliError::UnknownSubcommand)
        }
    } else if arg_is(&args[from], "push") {
        if from + 1 < n && (arg_is(&args[from + 1], "-t") || arg_is(&args[from + 1], "--topic")) {
            if n - from == 3 {
                Ok(RootSubCommand::Push(Push { topic_name: args[from + 2].clone() }))
            } else if n - from < 3 {
                Err(CliError::MissingValue)
            } else {
                Err(CliError::UnexpectedArgument)
            }
        } else if from + 1 >= n {
            Err(CliError::MissingValue)
        } else {
            Err(CliError::UnexpectedArgument)
        }
    } else if arg_is(&args[from], "pull") {
        if from + 1 < n && (arg_is(&args[from + 1], "-t") || arg_is(&args[from + 1], "--topics")) {
            if n - from == 3 {
                let names = split_commas(args[from + 2].as_str());
                Ok(RootSubCommand::Pull(Pull { topic_names: names }))
            } else if n - from < 3 {
                Err(CliError::MissingValue)
            } else {
                Err(CliError::UnexpectedArgument)
            }
        } else if from + 1 >= n {
            Err(CliError::MissingValue)
        } else {
            Err(CliError::UnexpectedArgument)
        }
    } else {
        Err(CliError::UnknownSubcommand)
    }
}

/// Parses a command line: an optional leading `-b`/`--brokers` flag whose
/// value is a comma-delimited broker list, then the subcommand.
pub fn parse_options(args: &Vec<String>) -> (r: Result<Options, CliError>)
    ensures
        (match spec_parse_options(str_views(args@)) {
            Ok(ov) => r matches Ok(o) && o@ == ov,
            Err(e) => r == Err::<Options, CliError>(e),
        }),
{
    let ghost av = str_views(args@);
    proof {
        assert forall|x: int| 0 <= x < av.len() implies #[trigger] av[x] == args@[x]@ by {}
    }
    if args.len() >= 1 && (arg_is(&args[0], "-b") || arg_is(&args[0], "--brokers")) {
        if args.len() >= 2 {
            proof {
                assert(av.subrange(2, av.len() as int) =~= str_views(args@).subrange(
                    2,
                    args@.len() as int,
                ));
            }
            match parse_sub(args, 2) {
                Ok(sub) => {
                    let brokers = split_commas(args[1].as_str());
                    Ok(Options { brokers: Some(brokers), sub_cmd: sub })
                },
                Err(e) => Err(e),
            }
        } else {
            Err(CliError::MissingValue)
        }
    } else {
        proof {
            assert(av.subrange(0, av.len() as int) =~= av);
        }
        match parse_sub(args, 0) {
            Ok(sub) => Ok(Options { brokers: None, sub_cmd: sub }),
            Err(e) => Err(e),
        }
    }
}

} // verus!
