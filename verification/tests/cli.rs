use junction::cli::CliError;
use junction::cli::RootSubCommand;
use junction::cli::parse_options;
use junction::cli::topics::TopicsSubCommand;

fn args(list: &[&str]) -> Vec<String> {
    list.iter().map(|s| String::from(*s)).collect()
}

#[test]
fn parse_options_topics_create_with_brokers() {
    let o = parse_options(&args(&["--brokers", "a:1,b", "topics", "create", "orders"]))
        .expect("parses");
    assert_eq!(o.brokers, Some(vec![String::from("a:1"), String::from("b")]));
    match o.sub_cmd {
        RootSubCommand::Topics(t) => match t.sub_cmd {
            TopicsSubCommand::Create(ct) => assert_eq!(ct.topic_name, "orders"),
            _ => panic!("expected create"),
        },
        _ => panic!("expected topics"),
    }
}

#[test]
fn parse_options_push() {
    let o = parse_options(&args(&["push", "-t", "orders"])).expect("parses");
    assert_eq!(o.brokers, None);
    match o.sub_cmd {
        RootSubCommand::Push(p) => assert_eq!(p.topic_name, "orders"),
        _ => panic!("expected push"),
    }
}

#[test]
fn parse_options_pull_splits_topics() {
    let o = parse_options(&args(&["pull", "--topics", "a,b"])).expect("parses");
    match o.sub_cmd {
        RootSubCommand::Pull(p) => {
            assert_eq!(p.topic_names, vec![String::from("a"), String::from("b")])
        }
        _ => panic!("expected pull"),
    }
}

#[test]
fn parse_options_topics_list_verbose() {
    let o = parse_options(&args(&["topics", "list", "--verbose"])).expect("parses");
    match o.sub_cmd {
        RootSubCommand::Topics(t) => match t.sub_cmd {
            TopicsSubCommand::List(lt) => assert!(lt.verbose),
            _ => panic!("expected list"),
        },
        _ => panic!("expected topics"),
    }
    let o2 = parse_options(&args(&["topics", "list"])).expect("parses");
    match o2.sub_cmd {
        RootSubCommand::Topics(t) => match t.sub_cmd {
            TopicsSubCommand::List(lt) => assert!(!lt.verbose),
            _ => panic!("expected list"),
        },
        _ => panic!("expected topics"),
    }
}

#[test]
fn parse_options_topics_delete() {
    let o = parse_options(&args(&["topics", "delete", "orders"])).expect("parses");
    match o.sub_cmd {
        RootSubCommand::Topics(t) => match t.sub_cmd {
            TopicsSubCommand::Delete(dt) => assert_eq!(dt.topic_name, "orders"),
            _ => panic!("expected delete"),
        },
        _ => panic!("expected topics"),
    }
}

#[test]
fn parse_options_errors() {
    assert_eq!(
        parse_options(&args(&[])).unwrap_err(),
        CliError::MissingSubcommand
    );
    assert_eq!(
        parse_options(&args(&["bogus"])).unwrap_err(),
        CliError::UnknownSubcommand
    );
    assert_eq!(
        parse_options(&args(&["push", "-t"])).unwrap_err(),
        CliError::MissingValue
    );
    assert_eq!(
        parse_options(&args(&["topics", "create", "a", "b"])).unwrap_err(),
        CliError::UnexpectedArgument
    );
    assert_eq!(
        parse_options(&args(&["--brokers"])).unwrap_err(),
        CliError::MissingValue
    );
    assert_eq!(
        parse_options(&args(&["topics"])).unwrap_err(),
        CliError::MissingSubcommand
    );
}
