use neaten::{AppErrorKind, Config, Engine, Kind, Manager, PathStatus};

#[test]
fn create_manager() {
    let manager = Manager::new();
    assert_eq!(
        manager,
        Manager {
            configs: vec![],
            dryrun: false
        }
    );
}

#[test]
fn add_config() {
    let mut manager = Manager::new();
    manager.add(Config::new(
        "/Users/abhinath/productive/pool/Project",
        Kind::Folder,
        vec!["build", "debug", "release"],
        None,
    ));
    assert_eq!(
        manager,
        Manager {
            configs: vec![Config {
                destination: String::from("/Users/abhinath/productive/pool/Project"),
                kind: Kind::Folder,
                patterns: vec![
                    String::from("build"),
                    String::from("debug"),
                    String::from("release"),
                ],
                exclude: None,
            }],
            dryrun: false
        }
    );
}

#[test]
fn check_format() {
    let mut manager = Manager::new();
    manager
        .format(
            String::from("/Users/abhinath/productive/pool/Project"),
            Kind::Folder,
            vec![
                String::from("build"),
                String::from("debug"),
                String::from("release"),
            ],
        )
        .unwrap();

    assert_eq!(
        manager,
        Manager {
            configs: vec![Config {
                destination: String::from("/Users/abhinath/productive/pool/Project"),
                kind: Kind::Folder,
                patterns: vec![
                    String::from("build"),
                    String::from("debug"),
                    String::from("release"),
                ],
                exclude: None,
            }],
            dryrun: false
        }
    );
}

fn direct(destination: &str, kind: Kind, patterns: Vec<&str>, dryrun: bool) -> Engine {
    Engine {
        config: None,
        destination: Some(String::from(destination)),
        kind: Some(kind),
        patterns: Some(patterns.into_iter().map(String::from).collect()),
        dryrun,
    }
}

fn from_file(path: &str) -> Engine {
    Engine {
        config: Some(String::from(path)),
        destination: None,
        kind: None,
        patterns: None,
        dryrun: false,
    }
}

#[test]
fn direct_rule_is_validated_and_added() {
    let mut manager = Manager::new();
    let r = manager.validate(direct("/pool", Kind::Folder, vec!["build"], true), PathStatus::Directory);
    assert_eq!(r, Ok(None));
    assert!(manager.dryrun);
    assert_eq!(
        manager.configs,
        vec![Config::new("/pool", Kind::Folder, vec!["build"], None)]
    );
}

#[test]
fn empty_patterns_fail_validation() {
    let mut manager = Manager::new();
    let err = manager
        .validate(direct("/pool", Kind::Folder, vec![], false), PathStatus::Directory)
        .unwrap_err();
    assert_eq!(err.kind, AppErrorKind::Usage);
    assert_eq!(
        err.message,
        "patterns are empty, please provide at least one pattern"
    );
    assert!(manager.configs.is_empty());
    assert!(manager.execute().is_empty());
}

#[test]
fn config_with_txt_extension_fails_validation() {
    let mut manager = Manager::new();
    let err = manager
        .validate(from_file("/pool/rules.txt"), PathStatus::NotDirectory)
        .unwrap_err();
    assert_eq!(err.kind, AppErrorKind::Usage);
    assert_eq!(
        err.message,
        "config file is not a JSON file, please provide a JSON file"
    );
    assert!(manager.configs.is_empty());
}

#[test]
fn missing_destination_fails_validation() {
    let mut manager = Manager::new();
    let err = manager
        .validate(direct("/nowhere", Kind::Folder, vec!["build"], false), PathStatus::Missing)
        .unwrap_err();
    assert_eq!(err.message, "destination doesn't exists");
    assert!(manager.execute().is_empty());
}

#[test]
fn file_destination_fails_validation() {
    let mut manager = Manager::new();
    let err = manager
        .validate(direct("/pool/a.txt", Kind::Folder, vec!["build"], false), PathStatus::NotDirectory)
        .unwrap_err();
    assert_eq!(
        err.message,
        "destination is not a directory, please provide directory path as destination!"
    );
}

#[test]
fn absent_fields_fail_validation_in_order() {
    let mut manager = Manager::new();
    let mut engine = direct("/pool", Kind::Folder, vec!["build"], false);
    engine.patterns = None;
    let err = manager.validate(engine.clone(), PathStatus::Directory).unwrap_err();
    assert_eq!(err.message, "Please provide patterns");
    engine.kind = None;
    let err = manager.validate(engine.clone(), PathStatus::Directory).unwrap_err();
    assert_eq!(err.message, "Please provide kind");
    engine.destination = None;
    let err = manager.validate(engine, PathStatus::Directory).unwrap_err();
    assert_eq!(err.message, "Please provide destination");
}

#[test]
fn config_file_is_checked_before_reading() {
    let mut manager = Manager::new();
    let err = manager.validate(from_file("/pool/rules.json"), PathStatus::Missing).unwrap_err();
    assert_eq!(err.message, "config file doesn't exists");
    let r = manager.validate(from_file("/pool/rules.JSON"), PathStatus::NotDirectory);
    assert_eq!(r, Ok(Some(String::from("/pool/rules.JSON"))));
    let err = manager.validate(from_file("/pool/json"), PathStatus::NotDirectory).unwrap_err();
    assert_eq!(err.kind, AppErrorKind::Usage);
}

#[test]
fn loaded_rules_are_checked_in_order() {
    let rules = vec![
        Config::new("/a", Kind::Folder, vec!["build"], None),
        Config::new("/b", Kind::File, vec![], None),
        Config::new("/c", Kind::File, vec!["tmp"], None),
    ];
    let mut manager = Manager::new();
    let err = manager
        .load(
            rules.clone(),
            &vec![PathStatus::Directory, PathStatus::Directory, PathStatus::Missing],
        )
        .unwrap_err();
    assert_eq!(
        err.message,
        "patterns are empty, please provide at least one pattern"
    );
    assert!(manager.configs.is_empty());

    let good = vec![rules[0].clone(), rules[2].clone()];
    let r = manager.load(good.clone(), &vec![PathStatus::Directory, PathStatus::Directory]);
    assert!(r.is_ok());
    assert_eq!(manager.configs, good);
}

#[test]
fn execute_starts_one_walk_per_rule() {
    let mut manager = Manager::new();
    manager.add(Config::new("/a", Kind::Folder, vec!["build"], None));
    manager.add(Config::new("/b", Kind::File, vec!["tmp", "log"], None));
    manager.dryrun = true;
    let walkers = manager.execute();
    assert_eq!(walkers.len(), 2);
    assert_eq!(walkers[0].pending, vec![String::from("/a")]);
    assert_eq!(walkers[1].kind, Kind::File);
    assert_eq!(walkers[1].patterns, vec![String::from("tmp"), String::from("log")]);
    assert!(walkers[0].dryrun && walkers[1].dryrun);
}

#[test]
fn default_manager_is_empty() {
    assert_eq!(Manager::default(), Manager::new());
}

#[test]
fn relative_destination_fails_validation() {
    let mut manager = Manager::new();
    let err = manager
        .validate(direct("pool", Kind::Folder, vec!["build"], false), PathStatus::Directory)
        .unwrap_err();
    assert_eq!(err.kind, AppErrorKind::Usage);
    assert_eq!(
        err.message,
        "destination is not an absolute path, please resolve it first"
    );
    let err = manager
        .load(
            vec![Config::new("./a", Kind::Folder, vec!["build"], None)],
            &vec![PathStatus::Directory],
        )
        .unwrap_err();
    assert_eq!(
        err.message,
        "destination is not an absolute path, please resolve it first"
    );
    assert!(manager.configs.is_empty());
}

#[test]
fn validate_replaces_rules_held_before() {
    let mut manager = Manager::new();
    manager.add(Config::new("rel", Kind::Folder, vec![], None));
    let r = manager.validate(from_file("/c.json"), PathStatus::NotDirectory);
    assert_eq!(r, Ok(Some(String::from("/c.json"))));
    assert!(manager.configs.is_empty());

    manager.add(Config::new("rel", Kind::Folder, vec![], None));
    let r = manager.validate(direct("/pool", Kind::File, vec!["tmp"], false), PathStatus::Directory);
    assert_eq!(r, Ok(None));
    assert_eq!(
        manager.configs,
        vec![Config::new("/pool", Kind::File, vec!["tmp"], None)]
    );

    manager.add(Config::new("rel", Kind::Folder, vec![], None));
    let r = manager.validate(direct("/pool", Kind::File, vec![], false), PathStatus::Directory);
    assert!(r.is_err());
    assert_eq!(manager.configs.len(), 2);
}
