use neaten::{Config, Kind};

#[test]
fn create_config() {
    let config = Config::new(
        "/Users/abhinath/productive/pool/Project",
        Kind::Folder,
        vec!["build", "debug", "release"],
        None,
    );

    assert_eq!(
        config.destination,
        String::from("/Users/abhinath/productive/pool/Project")
    );

    assert_eq!(
        config,
        Config {
            destination: String::from("/Users/abhinath/productive/pool/Project"),
            kind: Kind::Folder,
            patterns: vec![
                String::from("build"),
                String::from("debug"),
                String::from("release"),
            ],
            exclude: None,
        }
    );
}

#[test]
fn check_kind() {
    let folder_config = Config::new(
        "/Users/abhinath/productive/pool/Project",
        Kind::Folder,
        vec!["build", "debug", "release"],
        None,
    );
    assert_eq!(folder_config.kind, Kind::Folder);

    let file_config = Config::new(
        "/Users/abhinath/productive/pool/Project",
        Kind::File,
        vec!["build", "debug", "release"],
        None,
    );
    assert_eq!(file_config.kind, Kind::File);
}

#[test]
fn check_lifetime() {
    let destination = "/pool/node";
    let patterns = vec!["dist", "node_modules"];

    let config = Config::new(destination, Kind::Folder, patterns, None);
    assert_eq!(
        config,
        Config {
            destination: String::from("/pool/node"),
            kind: Kind::Folder,
            patterns: vec![String::from("dist"), String::from("node_modules")],
            exclude: None,
        }
    );

    {
        let inner_destination = "/pool/node";
        let inner_patterns = vec!["dist", "node_modules"];
        let inner_config = Config::new(inner_destination, Kind::Folder, inner_patterns, None);
        assert_eq!(
            inner_config,
            Config {
                destination: String::from("/pool/node"),
                kind: Kind::Folder,
                patterns: vec![String::from("dist"), String::from("node_modules")],
                exclude: None,
            }
        );
    }
}

#[test]
fn config_keeps_exclude() {
    let config = Config::new("/pool", Kind::File, vec!["tmp"], Some(vec!["keep.tmp"]));
    assert_eq!(config.exclude, Some(vec![String::from("keep.tmp")]));
}

#[test]
fn kind_defaults_to_folder() {
    assert_eq!(Kind::default(), Kind::Folder);
}
