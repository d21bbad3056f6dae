use clap::{Arg, ArgAction, Command};
use neaten::{Engine, Kind};

/// The command line of the program, declared with clap's builder.
fn command() -> Command {
    Command::new("neaten")
        .arg(Arg::new("config").long("config").short('c'))
        .arg(Arg::new("destination").long("destination").short('d'))
        .arg(Arg::new("kind").long("kind").short('k').value_parser(["folder", "file"]))
        .arg(
            Arg::new("patterns")
                .long("patterns")
                .short('p')
                .action(ArgAction::Append)
                .value_delimiter(','),
        )
        .arg(Arg::new("dryrun").long("dryrun").action(ArgAction::SetTrue))
}

struct Parsed;

impl Parsed {
    /// Reads a command line with clap into the library's `Engine`.
    fn try_parse_from(args: Vec<&str>) -> Result<Engine, clap::Error> {
        let m = command().try_get_matches_from(args)?;
        Ok(Engine {
            config: m.get_one::<String>("config").cloned(),
            destination: m.get_one::<String>("destination").cloned(),
            kind: m.get_one::<String>("kind").map(|k| {
                if k == "folder" {
                    Kind::Folder
                } else {
                    Kind::File
                }
            }),
            patterns: m.get_many::<String>("patterns").map(|v| v.cloned().collect()),
            dryrun: m.get_flag("dryrun"),
        })
    }
}

#[test]
fn config_long() {
    let args = vec![
        "neaten",
        "--config",
        "/Users/abhinath/productive/pool/Project/neaten/sample/config.json",
    ];
    let result = Parsed::try_parse_from(args);
    assert!(result.is_ok());
    let config = result.unwrap().config.unwrap();
    assert_eq!(
        config,
        String::from("/Users/abhinath/productive/pool/Project/neaten/sample/config.json")
    );
}

#[test]
fn config_short() {
    let args = vec![
        "neaten",
        "-c",
        "/Users/abhinath/productive/pool/Project/neaten/sample/config.json",
    ];
    let result = Parsed::try_parse_from(args);
    assert!(result.is_ok());
    let config = result.unwrap().config.unwrap();
    assert_eq!(
        config,
        String::from("/Users/abhinath/productive/pool/Project/neaten/sample/config.json")
    );
}

#[test]
fn missing_options() {
    let args = vec!["neaten"];
    let result = Parsed::try_parse_from(args);
    assert!(result.is_ok());
    let engine = result.unwrap();
    assert!(engine.config.is_none());
}

#[test]
fn destination_and_others_long() {
    let args = vec![
        "neaten",
        "--destination",
        "/Users/abhinath/productive/pool/Project/neaten/sample/config.json",
        "--kind",
        "folder",
        "--patterns",
        "dist,node_modules",
    ];
    let result = Parsed::try_parse_from(args);
    assert!(result.is_ok());
    let engine = result.unwrap();
    assert_eq!(
        engine.destination.unwrap(),
        String::from("/Users/abhinath/productive/pool/Project/neaten/sample/config.json")
    );
    assert_eq!(engine.kind.unwrap(), Kind::Folder);
    assert_eq!(
        engine.patterns.unwrap(),
        vec![String::from("dist"), String::from("node_modules")]
    );
}

#[test]
fn destination_and_others_short() {
    let args = vec![
        "neaten",
        "-d",
        "/Users/abhinath/productive/pool/Project/neaten/sample/config.json",
        "-k",
        "folder",
        "-p",
        "dist,node_modules",
    ];
    let result = Parsed::try_parse_from(args);
    assert!(result.is_ok());
    let engine = result.unwrap();
    assert_eq!(
        engine.destination.unwrap(),
        String::from("/Users/abhinath/productive/pool/Project/neaten/sample/config.json")
    );
    assert_eq!(engine.kind.unwrap(), Kind::Folder);
    assert_eq!(
        engine.patterns.unwrap(),
        vec![String::from("dist"), String::from("node_modules")]
    );
}

#[test]
fn missing_destination() {
    let args = vec![
        "neaten",
        "--kind",
        "folder",
        "--patterns",
        "dist,node_modules",
    ];
    let result = Parsed::try_parse_from(args);
    assert!(result.is_ok());
    let engine = result.unwrap();
    assert!(engine.destination.is_none());
}

#[test]
fn missing_kind() {
    let args = vec![
        "neaten",
        "--destination",
        "/Users/abhinath/productive/pool/Project/neaten/sample/config.json",
        "--patterns",
        "dist,node_modules",
    ];
    let result = Parsed::try_parse_from(args);
    assert!(result.is_ok());
    let engine = result.unwrap();
    assert!(engine.kind.is_none());
}

#[test]
fn missing_patterns() {
    let args = vec![
        "neaten",
        "--destination",
        "/Users/abhinath/productive/pool/Project/neaten/sample/config.json",
        "--kind",
        "folder",
    ];
    let result = Parsed::try_parse_from(args);
    assert!(result.is_ok());
    let engine = result.unwrap();
    assert!(engine.patterns.is_none());
}

#[test]
fn dryrun() {
    let args = vec![
        "neaten",
        "--config",
        "/Users/abhinath/productive/pool/Project/neaten/sample/config.json",
        "--dryrun",
    ];
    let result = Parsed::try_parse_from(args);
    assert!(result.is_ok());
    let engine = result.unwrap();
    assert_eq!(
        engine.config.unwrap(),
        String::from("/Users/abhinath/productive/pool/Project/neaten/sample/config.json")
    );
    assert!(engine.dryrun);
}

#[test]
fn clap_patterns_add_up_over_repetitions() {
    let engine = Parsed::try_parse_from(vec!["neaten", "-p", "a,b", "--patterns", "c"]).unwrap();
    assert_eq!(
        engine.patterns.unwrap(),
        vec![String::from("a"), String::from("b"), String::from("c")]
    );
}

#[test]
fn clap_attached_values_are_read() {
    let engine = Parsed::try_parse_from(vec!["neaten", "--config=a.json", "-kfile"]).unwrap();
    assert_eq!(engine.config, Some(String::from("a.json")));
    assert_eq!(engine.kind, Some(Kind::File));
}

#[test]
fn clap_refuses_unknown_kind() {
    assert!(Parsed::try_parse_from(vec!["neaten", "--kind", "Folder"]).is_err());
}
