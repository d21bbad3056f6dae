use std::collections::HashMap;

use neaten::{Config, Entry, EntryType, Kind, Removal, Walker};

/// A tree held in memory: the listing of each directory path.
struct Tree {
    dirs: HashMap<String, Vec<Entry>>,
}

impl Tree {
    fn new() -> Tree {
        Tree { dirs: HashMap::new() }
    }

    fn dir(mut self, path: &str, children: &[(&str, EntryType)]) -> Tree {
        let listing = children
            .iter()
            .map(|(n, t)| Entry {
                name: String::from(*n),
                entry_type: *t,
            })
            .collect();
        self.dirs.insert(String::from(path), listing);
        self
    }

    /// Drives a walk over the tree; returns what it reported and the
    /// directories it listed, in order.
    fn run(&self, walker: &mut Walker) -> (Vec<Removal>, Vec<String>) {
        let mut reported = Vec::new();
        let mut listed = Vec::new();
        while let Some(dir) = walker.next_dir() {
            listed.push(dir.clone());
            if let Some(children) = self.dirs.get(&dir) {
                reported.extend(walker.visit(&dir, children));
            }
        }
        (reported, listed)
    }
}

use EntryType::{Directory, File};

fn paths(rs: &[Removal]) -> Vec<String> {
    rs.iter().map(|r| r.path.clone()).collect()
}

#[test]
fn build_folder_removed_source_kept() {
    let tree = Tree::new()
        .dir("/root", &[("a", Directory)])
        .dir("/root/a", &[("build", Directory), ("src", Directory)])
        .dir("/root/a/build", &[("out.o", File)])
        .dir("/root/a/src", &[("x.txt", File)]);
    let config = Config::new("/root", Kind::Folder, vec!["build"], None);
    let mut walker = Walker::new(&config, false);
    let (reported, listed) = tree.run(&mut walker);
    assert_eq!(paths(&reported), vec!["/root/a/build"]);
    assert_eq!(reported[0].entry_type, Directory);
    assert!(!reported[0].simulated);
    assert_eq!(listed, vec!["/root", "/root/a", "/root/a/src"]);
}

#[test]
fn tmp_file_removed_pdf_kept() {
    let tree = Tree::new().dir("/root", &[("report.pdf", File), ("notes.tmp", File)]);
    let config = Config::new("/root", Kind::File, vec!["tmp"], None);
    let mut walker = Walker::new(&config, false);
    let (reported, _) = tree.run(&mut walker);
    assert_eq!(paths(&reported), vec!["/root/notes.tmp"]);
    assert_eq!(reported[0].entry_type, File);
}

#[test]
fn nested_node_modules() {
    let tree = Tree::new()
        .dir("/root", &[("a", Directory), ("top.txt", File)])
        .dir("/root/a", &[("b", Directory), ("c.txt", File)])
        .dir("/root/a/b", &[("node_modules", Directory), ("lib", Directory), ("index.js", File)])
        .dir("/root/a/b/node_modules", &[("node_modules", Directory)])
        .dir("/root/a/b/node_modules/node_modules", &[])
        .dir("/root/a/b/lib", &[]);
    let config = Config::new("/root", Kind::Folder, vec!["node_modules"], None);
    let mut walker = Walker::new(&config, false);
    let (reported, listed) = tree.run(&mut walker);
    assert_eq!(paths(&reported), vec!["/root/a/b/node_modules"]);
    assert_eq!(listed, vec!["/root", "/root/a", "/root/a/b", "/root/a/b/lib"]);
}

#[test]
fn match_inside_matched_folder_is_never_reported() {
    let tree = Tree::new()
        .dir("/r", &[("build", Directory)])
        .dir("/r/build", &[("build", Directory)])
        .dir("/r/build/build", &[]);
    let config = Config::new("/r", Kind::Folder, vec!["build"], None);
    let mut walker = Walker::new(&config, true);
    let (reported, listed) = tree.run(&mut walker);
    assert_eq!(paths(&reported), vec!["/r/build"]);
    assert_eq!(listed, vec!["/r"]);
}

#[test]
fn dry_run_reports_the_same_twice_and_removes_nothing() {
    let tree = Tree::new()
        .dir("/r/", &[("x", Directory), ("a.log", File), ("b.log", Directory)])
        .dir("/r/x", &[("c.log", File), ("d.txt", File)])
        .dir("/r/b.log", &[("e.log", File)]);
    let config = Config::new("/r/", Kind::File, vec!["log"], None);
    let first = tree.run(&mut Walker::new(&config, true));
    let second = tree.run(&mut Walker::new(&config, true));
    assert_eq!(first, second);
    assert_eq!(paths(&first.0), vec!["/r/a.log", "/r/x/c.log", "/r/b.log/e.log"]);
    assert!(first.0.iter().all(|r| r.simulated));
}

#[test]
fn subdirectories_are_listed_in_listing_order() {
    let tree = Tree::new()
        .dir("/r", &[("one", Directory), ("two", Directory), ("three", Directory)])
        .dir("/r/one", &[("deep", Directory)]);
    let config = Config::new("/r", Kind::Folder, vec!["none"], None);
    let (reported, listed) = tree.run(&mut Walker::new(&config, false));
    assert!(reported.is_empty());
    assert_eq!(listed, vec!["/r", "/r/one", "/r/one/deep", "/r/two", "/r/three"]);
}

#[test]
fn unlisted_directory_ends_its_branch() {
    let tree = Tree::new().dir("/r", &[("locked", Directory), ("a.tmp", File)]);
    let config = Config::new("/r", Kind::File, vec!["tmp"], None);
    let (reported, listed) = tree.run(&mut Walker::new(&config, false));
    assert_eq!(paths(&reported), vec!["/r/a.tmp"]);
    assert_eq!(listed, vec!["/r", "/r/locked"]);
}
