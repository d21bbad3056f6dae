use crate::config::{strings_view, Config, Kind};
use crate::matcher::{is_match, pattern_check, Entry, EntryType, EntryView};
use vstd::prelude::*;
use vstd::string::{StrSliceExecFns, StringExecFns};

verus! {

/// The path of the entry `name` inside the directory `dir`.
pub open spec fn join_path(dir: Seq<char>, name: Seq<char>) -> Seq<char> {
    if dir.len() > 0 && dir.last() == '/' {
        dir + name
    } else {
        dir.push('/') + name
    }
}

/// A child that the walk descends into: a directory that does not match.
pub open spec fn descends(e: EntryView, kind: Kind, patterns: Seq<Seq<char>>) -> bool {
    e.entry_type == EntryType::Directory && !is_match(e.name, e.entry_type, kind, patterns)
}

/// The paths of the children of `dir` that match, in listing order.
pub open spec fn removed(dir: Seq<char>, cs: Seq<EntryView>, kind: Kind, patterns: Seq<Seq<char>>) -> Seq<Seq<char>>
    decreases cs.len(),
{
    if cs.len() == 0 {
        seq![]
    } else {
        let rest = removed(dir, cs.drop_last(), kind, patterns);
        let c = cs.last();
        if is_match(c.name, c.entry_type, kind, patterns) {
            rest.push(join_path(dir, c.name))
        } else {
            rest
        }
    }
}

/// The paths of the children of `dir` that the walk descends into, in listing order.
pub open spec fn descended(dir: Seq<char>, cs: Seq<EntryView>, kind: Kind, patterns: Seq<Seq<char>>) -> Seq<Seq<char>>
    decreases cs.len(),
{
    if cs.len() == 0 {
        seq![]
    } else {
        let rest = descended(dir, cs.drop_last(), kind, patterns);
        let c = cs.last();
        if descends(c, kind, patterns) {
            rest.push(join_path(dir, c.name))
        } else {
            rest
        }
    }
}

/// The entry type that a rule of the given kind removes.
pub open spec fn target_type(kind: Kind) -> EntryType {
    match kind {
        Kind::Folder => EntryType::Directory,
        Kind::File => EntryType::File,
    }
}

/// One decision of the walk: the entry at `path` is to be removed, or, in a
/// dry run, only reported.
#[derive(Clone, Debug, PartialEq)]
pub struct Removal {
    pub path: String,
    pub entry_type: EntryType,
    pub simulated: bool,
}

/// The paths of a sequence of removals.
pub open spec fn removal_paths(rs: Seq<Removal>) -> Seq<Seq<char>> {
    rs.map_values(|r: Removal| r.path@)
}

/// What a sequence of removals reports: path, entry type, and whether the
/// removal is only simulated.
pub open spec fn report_view(rs: Seq<Removal>) -> Seq<(Seq<char>, EntryType, bool)> {
    rs.map_values(|r: Removal| (r.path@, r.entry_type, r.simulated))
}

/// What a visit of the listing `cs` of `dir` reports under a rule.
pub open spec fn reports(dir: Seq<char>, cs: Seq<EntryView>, kind: Kind, patterns: Seq<Seq<char>>, dryrun: bool) -> Seq<(Seq<char>, EntryType, bool)> {
    removed(dir, cs, kind, patterns).map_values(|p: Seq<char>| (p, target_type(kind), dryrun))
}

/// A dry run changes nothing: every removal that it reports is only
/// simulated, and the caller removes only what is not.
pub proof fn lemma_dry_run_removes_nothing(r: Seq<Removal>, dir: Seq<char>, cs: Seq<EntryView>, kind: Kind, patterns: Seq<Seq<char>>)
    requires
        report_view(r) == reports(dir, cs, kind, patterns, true),
    ensures
        forall|i: int| 0 <= i < r.len() ==> (#[trigger] r[i]).simulated,
{
    let rm = removed(dir, cs, kind, patterns);
    assert(report_view(r).len() == r.len());
    assert(reports(dir, cs, kind, patterns, true).len() == rm.len());
    assert forall|i: int| 0 <= i < r.len() implies (#[trigger] r[i]).simulated by {
        assert(report_view(r)[i].2 == r[i].simulated);
        assert(reports(dir, cs, kind, patterns, true)[i] == (rm[i], target_type(kind), true));
    }
}

/// A dry run can be repeated: since it removes nothing, a second pass lists
/// what the first listed, and two visits of one listing under one rule
/// report the same removals.
pub proof fn lemma_dry_run_repeatable(
    r1: Seq<Removal>,
    r2: Seq<Removal>,
    dir: Seq<char>,
    cs: Seq<EntryView>,
    kind: Kind,
    patterns: Seq<Seq<char>>,
)
    requires
        report_view(r1) == reports(dir, cs, kind, patterns, true),
        report_view(r2) == reports(dir, cs, kind, patterns, true),
    ensures
        report_view(r1) == report_view(r2),
        removal_paths(r1) == removal_paths(r2),
{
    assert(removal_paths(r1).len() == report_view(r1).len());
    assert forall|i: int| 0 <= i < r1.len() implies removal_paths(r1)[i] == removal_paths(r2)[i] by {
        assert(report_view(r1)[i] == report_view(r2)[i]);
    }
    assert(removal_paths(r1) =~= removal_paths(r2));
}

/// The views of a listing.
pub open spec fn listing_view(cs: Seq<Entry>) -> Seq<EntryView> {
    cs.map_values(|e: Entry| e@)
}

/// The walk of one rule over a destination tree, driven one directory at a
/// time: the caller takes the next directory with `next_dir`, lists it, and
/// hands the listing to `visit`, which decides for every child.
///
/// `pending` holds the directories still to be listed; the last one is next.
/// A directory that matches is removed whole and never listed.
pub struct Walker {
    pub kind: Kind,
    pub patterns: Vec<String>,
    pub dryrun: bool,
    pub pending: Vec<String>,
}

/// An owned copy of a list of strings.
pub fn copy_strings(v: &Vec<String>) -> (r: Vec<String>)
    ensures
        r@ == v@,
{
    let mut r: Vec<String> = Vec::new();
    let mut i: usize = 0;
    while i < v.len()
        invariant
            i <= v@.len(),
            r@ == v@.subrange(0, i as int),
        decreases v@.len() - i,
    {
        r.push(v[i].clone());
        i = i + 1;
        assert(r@ =~= v@.subrange(0, i as int));
    }
    assert(v@.subrange(0, i as int) =~= v@);
    r
}

/// The path of `name` inside `dir`.
pub fn join(dir: &String, name: &String) -> (r: String)
    ensures
        r@ == join_path(dir@, name@),
{
    let mut r = dir.clone();
    let len = dir.as_str().unicode_len();
    if len == 0 || dir.as_str().get_char(len - 1) != '/' {
        r.append("/");
        proof {
            reveal_strlit("/");
        }
        assert(r@ == dir@.push('/'));
    }
    r.append(name.as_str());
    r
}

impl Walker {
    /// A walk of `config`, which starts by listing its destination.
    pub fn new(config: &Config, dryrun: bool) -> (r: Walker)
        ensures
            r.kind == config.kind,
            r.patterns@ == config.patterns@,
            r.dryrun == dryrun,
            strings_view(r.pending@) == seq![config.destination@],
    {
        let mut pending: Vec<String> = Vec::new();
        pending.push(config.destination.clone());
        assert(strings_view(pending@) =~= seq![config.destination@]);
        Walker { kind: config.kind, patterns: copy_strings(&config.patterns), dryrun, pending }
    }

    /// The next directory to list, taken off `pending`; none once the walk is done.
    pub fn next_dir(&mut self) -> (r: Option<String>)
        ensures
            final(self).kind == old(self).kind,
            final(self).patterns@ == old(self).patterns@,
            final(self).dryrun == old(self).dryrun,
            old(self).pending@.len() == 0 ==> r is None && final(self).pending@ == old(self).pending@,
            old(self).pending@.len() > 0 ==> r == Some(old(self).pending@.last())
                && final(self).pending@ == old(self).pending@.drop_last(),
    {
        self.pending.pop()
    }

    /// Decides for each child of the listed directory `dir`: a match is to be
    /// removed (or only reported in a dry run) and is not descended into; a
    /// directory that does not match is put on `pending`, so that the
    /// directories of one listing are listed in listing order.
    pub fn visit(&mut self, dir: &String, children: &Vec<Entry>) -> (r: Vec<Removal>)
        ensures
            final(self).kind == old(self).kind,
            final(self).patterns@ == old(self).patterns@,
            final(self).dryrun == old(self).dryrun,
            removal_paths(r@) == removed(dir@, listing_view(children@), old(self).kind, strings_view(old(self).patterns@)),
            report_view(r@) == reports(dir@, listing_view(children@), old(self).kind, strings_view(old(self).patterns@), old(self).dryrun),
            forall|i: int| 0 <= i < r@.len() ==> (#[trigger] r@[i]).simulated == old(self).dryrun
                && r@[i].entry_type == target_type(old(self).kind),
            strings_view(final(self).pending@) == strings_view(old(self).pending@)
                + descended(dir@, listing_view(children@), old(self).kind, strings_view(old(self).patterns@)).reverse(),
    {
        let ghost cs = listing_view(children@);
        let ghost pats = strings_view(self.patterns@);
        let mut out: Vec<Removal> = Vec::new();
        let mut subdirs: Vec<String> = Vec::new();
        let mut i: usize = 0;
        while i < children.len()
            invariant
                i <= children@.len(),
                cs == listing_view(children@),
                self.kind == old(self).kind,
                self.patterns@ == old(self).patterns@,
                self.dryrun == old(self).dryrun,
                self.pending@ == old(self).pending@,
                pats == strings_view(self.patterns@),
                removal_paths(out@) == removed(dir@, cs.subrange(0, i as int), self.kind, pats),
                forall|k: int| 0 <= k < out@.len() ==> (#[trigger] out@[k]).simulated == self.dryrun
                    && out@[k].entry_type == target_type(self.kind),
                strings_view(subdirs@) == descended(dir@, cs.subrange(0, i as int), self.kind, pats),
            decreases children@.len() - i,
        {
            let child = &children[i];
            let ghost prefix = cs.subrange(0, i as int);
            assert(cs.subrange(0, i + 1).drop_last() =~= prefix);
            assert(cs.subrange(0, i + 1).last() == child@);
            match pattern_check(child, &self.patterns, &self.kind) {
                Some(_) => {
                    let path = join(dir, &child.name);
                    let ghost before = out@;
                    out.push(Removal { path, entry_type: child.entry_type, simulated: self.dryrun });
                    assert(removal_paths(out@) =~= removal_paths(before).push(join_path(dir@, child.name@)));
                },
                None => {
                    if child.entry_type == EntryType::Directory {
                        let path = join(dir, &child.name);
                        let ghost before = subdirs@;
                        subdirs.push(path);
                        assert(strings_view(subdirs@) =~= strings_view(before).push(join_path(dir@, child.name@)));
                    }
                },
            }
            i = i + 1;
        }
        assert(cs.subrange(0, i as int) =~= cs);
        let ghost start = strings_view(self.pending@);
        let ghost down = strings_view(subdirs@);
        let mut j: usize = subdirs.len();
        while j > 0
            invariant
                j <= subdirs@.len(),
                down == strings_view(subdirs@),
                self.kind == old(self).kind,
                self.patterns@ == old(self).patterns@,
                self.dryrun == old(self).dryrun,
                strings_view(self.pending@) == start + down.subrange(j as int, down.len() as int).reverse(),
            decreases j,
        {
            j = j - 1;
            let ghost before = self.pending@;
            self.pending.push(subdirs[j].clone());
            assert(down.subrange(j as int, down.len() as int).reverse() =~= down.subrange(j + 1, down.len() as int).reverse().push(down[j as int]));
            assert(strings_view(self.pending@) =~= strings_view(before).push(subdirs@[j as int]@));
        }
        assert(down.subrange(0, down.len() as int) =~= down);
        let ghost done = removed(dir@, cs, self.kind, pats);
        assert(report_view(out@).len() == done.len());
        assert forall|k: int| 0 <= k < out@.len() implies report_view(out@)[k] == reports(dir@, cs, self.kind, pats, self.dryrun)[k] by {
            assert(removal_paths(out@)[k] == done[k]);
        }
        assert(report_view(out@) =~= reports(dir@, cs, self.kind, pats, self.dryrun));
        out
    }
}

} // verus!
