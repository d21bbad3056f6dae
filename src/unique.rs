use crate::config::Kind;
use crate::matcher::is_match;
use crate::tree::{
    entry_of, found, lemma_listed_only, lemma_nested_match_found, lemma_walk_only, listed, listed_upto,
    listing, node_at, path_at, reached, walk, walk_upto, FsNode,
};
use crate::walker::{descends, join_path, removed};
use vstd::prelude::*;
use vstd::seq_lib::lemma_no_dup_in_concat;

verus! {

/// A base name as a file system gives it: not empty, and without `/`.
pub open spec fn plain_name(n: Seq<char>) -> bool {
    n.len() > 0 && forall|i: int| 0 <= i < n.len() ==> n[i] != '/'
}

/// A tree as a file system gives it: the names in each directory are plain
/// and distinct.
pub open spec fn well_formed(node: FsNode) -> bool
    decreases node,
{
    &&& forall|i: int| 0 <= i < node.children.len() ==> plain_name(#[trigger] node.children[i].name)
    &&& forall|i: int, j: int| 0 <= i < j < node.children.len()
        ==> #[trigger] node.children[i].name != #[trigger] node.children[j].name
    &&& forall|i: int| 0 <= i < node.children.len() ==> well_formed(#[trigger] node.children[i])
}

/// What the path of every entry inside the directory at `path` starts with.
pub open spec fn dir_prefix(path: Seq<char>) -> Seq<char> {
    if path.len() > 0 && path.last() == '/' {
        path
    } else {
        path.push('/')
    }
}

/// `p` is a prefix of `x`.
pub open spec fn starts_with(x: Seq<char>, p: Seq<char>) -> bool {
    p.len() <= x.len() && x.subrange(0, p.len() as int) == p
}

proof fn lemma_join(path: Seq<char>, name: Seq<char>)
    ensures
        join_path(path, name) == dir_prefix(path) + name,
{
}

proof fn lemma_dir_prefix_of_child(path: Seq<char>, name: Seq<char>)
    requires
        plain_name(name),
    ensures
        dir_prefix(join_path(path, name)) == dir_prefix(path) + name + seq!['/'],
{
    let j = join_path(path, name);
    assert(j == dir_prefix(path) + name);
    assert(j.last() == name.last());
    assert(name[name.len() - 1] != '/');
    assert(j.push('/') =~= dir_prefix(path) + name + seq!['/']);
}

proof fn lemma_char_at(x: Seq<char>, p: Seq<char>, i: int)
    requires
        starts_with(x, p),
        0 <= i < p.len(),
    ensures
        x[i] == p[i],
{
    assert(x.subrange(0, p.len() as int)[i] == x[i]);
}

proof fn lemma_prefix_clash(x: Seq<char>, p: Seq<char>, a: Seq<char>, b: Seq<char>)
    requires
        starts_with(x, p + a + seq!['/']),
        starts_with(x, p + b + seq!['/']),
        plain_name(a),
        plain_name(b),
    ensures
        a == b,
{
    let pa = p + a + seq!['/'];
    let pb = p + b + seq!['/'];
    if a.len() < b.len() {
        lemma_char_at(x, pa, (p.len() + a.len()) as int);
        lemma_char_at(x, pb, (p.len() + a.len()) as int);
        assert(pb[(p.len() + a.len()) as int] == b[a.len() as int]);
    } else if b.len() < a.len() {
        lemma_char_at(x, pa, (p.len() + b.len()) as int);
        lemma_char_at(x, pb, (p.len() + b.len()) as int);
        assert(pa[(p.len() + b.len()) as int] == a[b.len() as int]);
    } else {
        assert forall|i: int| 0 <= i < a.len() implies a[i] == b[i] by {
            lemma_char_at(x, pa, p.len() + i);
            lemma_char_at(x, pb, p.len() + i);
        }
        assert(a =~= b);
    }
}

proof fn lemma_prefix_longer(x: Seq<char>, p: Seq<char>, a: Seq<char>)
    requires
        starts_with(x, p + a + seq!['/']),
    ensures
        starts_with(x, p),
        x.len() > p.len(),
{
    let q = p + a + seq!['/'];
    assert forall|i: int| 0 <= i < p.len() implies x.subrange(0, p.len() as int)[i] == p[i] by {
        lemma_char_at(x, q, i);
    }
    assert(x.subrange(0, p.len() as int) =~= p);
}

proof fn lemma_walk_under(path: Seq<char>, node: FsNode, kind: Kind, patterns: Seq<Seq<char>>, x: Seq<char>)
    requires
        well_formed(node),
        walk(path, node, kind, patterns).contains(x),
    ensures
        starts_with(x, dir_prefix(path)),
        x.len() > dir_prefix(path).len(),
    decreases node, node.children.len() + 1,
{
    let p = dir_prefix(path);
    let cs = listing(node);
    let here = removed(path, cs, kind, patterns);
    let n = node.children.len() as int;
    let rest = walk_upto(path, node, n, kind, patterns);
    assert(walk(path, node, kind, patterns) == here + rest);
    let k = choose|k: int| 0 <= k < (here + rest).len() && (here + rest)[k] == x;
    if k < here.len() {
        assert(here.contains(x)) by {
            assert(here[k] == x);
        }
        crate::tree::lemma_removed_only(path, cs, kind, patterns, x);
        let m = choose|m: int| 0 <= m < cs.len() && is_match(cs[m].name, cs[m].entry_type, kind, patterns)
            && x == join_path(path, #[trigger] cs[m].name);
        assert(cs[m] == entry_of(node.children[m]));
        assert(plain_name(node.children[m].name));
        lemma_join(path, cs[m].name);
        assert(x.subrange(0, p.len() as int) =~= p);
    } else {
        assert(rest.contains(x)) by {
            assert(rest[k - here.len()] == x);
        }
        lemma_walk_upto_under(path, node, n, kind, patterns, x);
        let j = choose|j: int| 0 <= j < n && descends(entry_of(node.children[j]), kind, patterns)
            && starts_with(x, p + (#[trigger] node.children[j]).name + seq!['/']);
        lemma_prefix_longer(x, p, node.children[j].name);
    }
}

proof fn lemma_walk_upto_under(path: Seq<char>, node: FsNode, n: int, kind: Kind, patterns: Seq<Seq<char>>, x: Seq<char>)
    requires
        well_formed(node),
        walk_upto(path, node, n, kind, patterns).contains(x),
    ensures
        exists|j: int| 0 <= j < n && descends(entry_of(node.children[j]), kind, patterns)
            && starts_with(x, dir_prefix(path) + (#[trigger] node.children[j]).name + seq!['/']),
    decreases node, n,
{
    if n <= 0 || n > node.children.len() {
        assert(walk_upto(path, node, n, kind, patterns).len() == 0);
    } else {
        let c = node.children[n - 1];
        let here = if descends(entry_of(c), kind, patterns) {
            walk(join_path(path, c.name), c, kind, patterns)
        } else {
            seq![]
        };
        let before = walk_upto(path, node, n - 1, kind, patterns);
        let k = choose|k: int| 0 <= k < (before + here).len() && (before + here)[k] == x;
        if k >= before.len() {
            assert(here.contains(x)) by {
                assert(here[k - before.len()] == x);
            }
            assert(plain_name(c.name));
            assert(well_formed(c));
            lemma_walk_under(join_path(path, c.name), c, kind, patterns, x);
            lemma_dir_prefix_of_child(path, c.name);
            assert(descends(entry_of(node.children[n - 1]), kind, patterns)
                && starts_with(x, dir_prefix(path) + node.children[n - 1].name + seq!['/']));
        } else {
            assert(before.contains(x)) by {
                assert(before[k] == x);
            }
            lemma_walk_upto_under(path, node, n - 1, kind, patterns, x);
        }
    }
}

proof fn lemma_removed_distinct(dir: Seq<char>, cs: Seq<crate::matcher::EntryView>, kind: Kind, patterns: Seq<Seq<char>>)
    requires
        forall|i: int, j: int| 0 <= i < j < cs.len() ==> #[trigger] cs[i].name != #[trigger] cs[j].name,
    ensures
        removed(dir, cs, kind, patterns).no_duplicates(),
    decreases cs.len(),
{
    if cs.len() > 0 {
        let d = cs.drop_last();
        assert forall|i: int, j: int| 0 <= i < j < d.len() implies #[trigger] d[i].name != #[trigger] d[j].name by {
            assert(d[i] == cs[i] && d[j] == cs[j]);
        }
        lemma_removed_distinct(dir, d, kind, patterns);
        let rest = removed(dir, d, kind, patterns);
        let c = cs.last();
        if is_match(c.name, c.entry_type, kind, patterns) {
            let e = join_path(dir, c.name);
            if rest.contains(e) {
                crate::tree::lemma_removed_only(dir, d, kind, patterns, e);
                let m = choose|m: int| 0 <= m < d.len() && is_match(d[m].name, d[m].entry_type, kind, patterns)
                    && e == join_path(dir, #[trigger] d[m].name);
                lemma_join(dir, d[m].name);
                lemma_join(dir, c.name);
                let p = dir_prefix(dir);
                assert(d[m].name =~= e.subrange(p.len() as int, e.len() as int));
                assert(c.name =~= e.subrange(p.len() as int, e.len() as int));
                assert(cs[m].name != cs[cs.len() - 1].name);
                assert(false);
            }
            let r = rest.push(e);
            assert forall|i: int, j: int| 0 <= i < r.len() && 0 <= j < r.len() && i != j implies r[i] != r[j] by {
                if i == rest.len() {
                    assert(r[j] == rest[j]);
                } else if j == rest.len() {
                    assert(r[i] == rest[i]);
                } else {
                    assert(r[i] == rest[i] && r[j] == rest[j]);
                }
            }
        }
    }
}

proof fn lemma_walk_distinct(path: Seq<char>, node: FsNode, kind: Kind, patterns: Seq<Seq<char>>)
    requires
        well_formed(node),
    ensures
        walk(path, node, kind, patterns).no_duplicates(),
    decreases node, node.children.len() + 1,
{
    let p = dir_prefix(path);
    let cs = listing(node);
    let here = removed(path, cs, kind, patterns);
    let n = node.children.len() as int;
    let rest = walk_upto(path, node, n, kind, patterns);
    assert forall|i: int, j: int| 0 <= i < j < cs.len() implies #[trigger] cs[i].name != #[trigger] cs[j].name by {
        assert(cs[i] == entry_of(node.children[i]) && cs[j] == entry_of(node.children[j]));
    }
    lemma_removed_distinct(path, cs, kind, patterns);
    lemma_walk_upto_distinct(path, node, n, kind, patterns);
    assert forall|a: int, b: int| 0 <= a < here.len() && 0 <= b < rest.len() implies here[a] != rest[b] by {
        let x = here[a];
        if x == rest[b] {
            assert(here.contains(x));
            crate::tree::lemma_removed_only(path, cs, kind, patterns, x);
            let m = choose|m: int| 0 <= m < cs.len() && is_match(cs[m].name, cs[m].entry_type, kind, patterns)
                && x == join_path(path, #[trigger] cs[m].name);
            assert(cs[m] == entry_of(node.children[m]));
            assert(plain_name(node.children[m].name));
            lemma_join(path, cs[m].name);
            assert(rest.contains(x));
            lemma_walk_upto_under(path, node, n, kind, patterns, x);
            let j = choose|j: int| 0 <= j < n && descends(entry_of(node.children[j]), kind, patterns)
                && starts_with(x, p + (#[trigger] node.children[j]).name + seq!['/']);
            let cn = node.children[j].name;
            let q = p + cn + seq!['/'];
            lemma_char_at(x, q, (p.len() + cn.len()) as int);
            assert(x[(p.len() + cn.len()) as int] == cs[m].name[cn.len() as int]);
            assert(false);
        }
    }
    lemma_no_dup_in_concat(here, rest);
    assert(walk(path, node, kind, patterns) == here + rest);
}

proof fn lemma_walk_upto_distinct(path: Seq<char>, node: FsNode, n: int, kind: Kind, patterns: Seq<Seq<char>>)
    requires
        well_formed(node),
    ensures
        walk_upto(path, node, n, kind, patterns).no_duplicates(),
    decreases node, n,
{
    if n > 0 && n <= node.children.len() {
        let p = dir_prefix(path);
        let c = node.children[n - 1];
        let cpath = join_path(path, c.name);
        let here = if descends(entry_of(c), kind, patterns) {
            walk(cpath, c, kind, patterns)
        } else {
            seq![]
        };
        let before = walk_upto(path, node, n - 1, kind, patterns);
        lemma_walk_upto_distinct(path, node, n - 1, kind, patterns);
        assert(well_formed(c));
        assert(plain_name(c.name));
        if descends(entry_of(c), kind, patterns) {
            lemma_walk_distinct(cpath, c, kind, patterns);
        }
        assert forall|a: int, b: int| 0 <= a < before.len() && 0 <= b < here.len() implies before[a] != here[b] by {
            let x = before[a];
            if x == here[b] {
                assert(before.contains(x));
                assert(here.contains(x));
                lemma_walk_upto_under(path, node, n - 1, kind, patterns, x);
                let j = choose|j: int| 0 <= j < n - 1 && descends(entry_of(node.children[j]), kind, patterns)
                    && starts_with(x, p + (#[trigger] node.children[j]).name + seq!['/']);
                lemma_walk_under(cpath, c, kind, patterns, x);
                lemma_dir_prefix_of_child(path, c.name);
                assert(plain_name(node.children[j].name));
                lemma_prefix_clash(x, p, node.children[j].name, c.name);
                assert(false);
            }
        }
        lemma_no_dup_in_concat(before, here);
        assert(walk_upto(path, node, n, kind, patterns) == before + here);
    }
}

/// Exactly once: in a tree as a file system gives it, the walk reports no
/// path twice. So a match reached through directories that do not match, at
/// any depth, is reported, and reported once.
pub proof fn lemma_reported_once(path: Seq<char>, node: FsNode, ip: Seq<int>, kind: Kind, patterns: Seq<Seq<char>>)
    requires
        well_formed(node),
        found(node, ip, kind, patterns),
    ensures
        walk(path, node, kind, patterns).contains(path_at(path, node, ip)),
        walk(path, node, kind, patterns).no_duplicates(),
{
    lemma_nested_match_found(path, node, ip, kind, patterns);
    lemma_walk_distinct(path, node, kind, patterns);
}

/// `x` is the path `p + a`, or lies inside it.
pub open spec fn at_or_below(x: Seq<char>, p: Seq<char>, a: Seq<char>) -> bool {
    x == p + a || starts_with(x, p + a + seq!['/'])
}

proof fn lemma_below_clash(x: Seq<char>, p: Seq<char>, a: Seq<char>, b: Seq<char>)
    requires
        at_or_below(x, p, a),
        at_or_below(x, p, b),
        plain_name(a),
        plain_name(b),
    ensures
        a == b,
{
    if x == p + a && x == p + b {
        assert(a =~= x.subrange(p.len() as int, x.len() as int));
        assert(b =~= x.subrange(p.len() as int, x.len() as int));
    } else if x == p + a {
        let q = p + b + seq!['/'];
        lemma_char_at(x, q, (p.len() + b.len()) as int);
        assert(x[(p.len() + b.len()) as int] == a[b.len() as int]);
    } else if x == p + b {
        let q = p + a + seq!['/'];
        lemma_char_at(x, q, (p.len() + a.len()) as int);
        assert(x[(p.len() + a.len()) as int] == b[a.len() as int]);
    } else {
        lemma_prefix_clash(x, p, a, b);
    }
}

proof fn lemma_listed_in(path: Seq<char>, node: FsNode, kind: Kind, patterns: Seq<Seq<char>>, x: Seq<char>)
    requires
        well_formed(node),
        listed(path, node, kind, patterns).contains(x),
    ensures
        x == path || (starts_with(x, dir_prefix(path)) && x.len() > dir_prefix(path).len()),
    decreases node, node.children.len() + 1,
{
    let p = dir_prefix(path);
    let n = node.children.len() as int;
    let rest = listed_upto(path, node, n, kind, patterns);
    let k = choose|k: int| 0 <= k < (seq![path] + rest).len() && (seq![path] + rest)[k] == x;
    if k > 0 {
        assert(rest.contains(x)) by {
            assert(rest[k - 1] == x);
        }
        lemma_listed_upto_in(path, node, n, kind, patterns, x);
        let j = choose|j: int| 0 <= j < n && at_or_below(x, p, (#[trigger] node.children[j]).name);
        let a = node.children[j].name;
        assert(plain_name(a));
        if x == p + a {
            assert(x.subrange(0, p.len() as int) =~= p);
        } else {
            lemma_prefix_longer(x, p, a);
        }
    }
}

proof fn lemma_listed_upto_in(path: Seq<char>, node: FsNode, n: int, kind: Kind, patterns: Seq<Seq<char>>, x: Seq<char>)
    requires
        well_formed(node),
        listed_upto(path, node, n, kind, patterns).contains(x),
    ensures
        exists|j: int| 0 <= j < n && at_or_below(x, dir_prefix(path), (#[trigger] node.children[j]).name),
    decreases node, n,
{
    if n <= 0 || n > node.children.len() {
        assert(listed_upto(path, node, n, kind, patterns).len() == 0);
    } else {
        let p = dir_prefix(path);
        let c = node.children[n - 1];
        let cpath = join_path(path, c.name);
        let here = if descends(entry_of(c), kind, patterns) {
            listed(cpath, c, kind, patterns)
        } else {
            seq![]
        };
        let before = listed_upto(path, node, n - 1, kind, patterns);
        let k = choose|k: int| 0 <= k < (before + here).len() && (before + here)[k] == x;
        if k >= before.len() {
            assert(here.contains(x)) by {
                assert(here[k - before.len()] == x);
            }
            assert(plain_name(c.name));
            assert(well_formed(c));
            lemma_listed_in(cpath, c, kind, patterns, x);
            lemma_dir_prefix_of_child(path, c.name);
            lemma_join(path, c.name);
            assert(at_or_below(x, p, node.children[n - 1].name));
        } else {
            assert(before.contains(x)) by {
                assert(before[k] == x);
            }
            lemma_listed_upto_in(path, node, n - 1, kind, patterns, x);
        }
    }
}

/// Each directory once: in a tree as a file system gives it, the walk lists
/// no directory twice.
pub proof fn lemma_listed_distinct(path: Seq<char>, node: FsNode, kind: Kind, patterns: Seq<Seq<char>>)
    requires
        well_formed(node),
    ensures
        listed(path, node, kind, patterns).no_duplicates(),
    decreases node, node.children.len() + 1,
{
    let p = dir_prefix(path);
    let n = node.children.len() as int;
    let first = seq![path];
    let rest = listed_upto(path, node, n, kind, patterns);
    lemma_listed_upto_distinct(path, node, n, kind, patterns);
    assert forall|a: int, b: int| 0 <= a < first.len() && 0 <= b < rest.len() implies first[a] != rest[b] by {
        let x = rest[b];
        assert(rest.contains(x));
        lemma_listed_upto_in(path, node, n, kind, patterns, x);
        let j = choose|j: int| 0 <= j < n && at_or_below(x, p, (#[trigger] node.children[j]).name);
        assert(plain_name(node.children[j].name));
        assert(x.len() > p.len());
        assert(p.len() >= path.len());
    }
    lemma_no_dup_in_concat(first, rest);
}

proof fn lemma_listed_upto_distinct(path: Seq<char>, node: FsNode, n: int, kind: Kind, patterns: Seq<Seq<char>>)
    requires
        well_formed(node),
    ensures
        listed_upto(path, node, n, kind, patterns).no_duplicates(),
    decreases node, n,
{
    if n > 0 && n <= node.children.len() {
        let p = dir_prefix(path);
        let c = node.children[n - 1];
        let cpath = join_path(path, c.name);
        let here = if descends(entry_of(c), kind, patterns) {
            listed(cpath, c, kind, patterns)
        } else {
            seq![]
        };
        let before = listed_upto(path, node, n - 1, kind, patterns);
        lemma_listed_upto_distinct(path, node, n - 1, kind, patterns);
        assert(well_formed(c));
        assert(plain_name(c.name));
        if descends(entry_of(c), kind, patterns) {
            lemma_listed_distinct(cpath, c, kind, patterns);
        }
        assert forall|a: int, b: int| 0 <= a < before.len() && 0 <= b < here.len() implies before[a] != here[b] by {
            let x = before[a];
            if x == here[b] {
                assert(before.contains(x));
                assert(here.contains(x));
                lemma_listed_upto_in(path, node, n - 1, kind, patterns, x);
                let j = choose|j: int| 0 <= j < n - 1 && at_or_below(x, p, (#[trigger] node.children[j]).name);
                lemma_listed_in(cpath, c, kind, patterns, x);
                lemma_dir_prefix_of_child(path, c.name);
                lemma_join(path, c.name);
                assert(at_or_below(x, p, c.name));
                assert(plain_name(node.children[j].name));
                lemma_below_clash(x, p, node.children[j].name, c.name);
                assert(false);
            }
        }
        lemma_no_dup_in_concat(before, here);
        assert(listed_upto(path, node, n, kind, patterns) == before + here);
    }
}

proof fn lemma_below_starts(x: Seq<char>, q: Seq<char>, a: Seq<char>)
    requires
        at_or_below(x, q, a),
    ensures
        starts_with(x, q),
{
    if x == q + a {
        assert(x.subrange(0, q.len() as int) =~= q);
    } else {
        lemma_prefix_longer(x, q, a);
    }
}

proof fn lemma_starts_trans(x: Seq<char>, q: Seq<char>, r: Seq<char>)
    requires
        starts_with(x, q),
        starts_with(q, r),
    ensures
        starts_with(x, r),
{
    assert forall|i: int| 0 <= i < r.len() implies x.subrange(0, r.len() as int)[i] == r[i] by {
        lemma_char_at(x, q, i);
        lemma_char_at(q, r, i);
    }
    assert(x.subrange(0, r.len() as int) =~= r);
}

proof fn lemma_path_shape(path: Seq<char>, node: FsNode, ip: Seq<int>, kind: Kind, patterns: Seq<Seq<char>>)
    requires
        well_formed(node),
        reached(node, ip, kind, patterns),
    ensures
        ip.len() == 1 ==> path_at(path, node, ip) == dir_prefix(path) + node.children[ip[0]].name,
        ip.len() > 1 ==> starts_with(path_at(path, node, ip), dir_prefix(path) + node.children[ip[0]].name + seq!['/']),
        at_or_below(path_at(path, node, ip), dir_prefix(path), node.children[ip[0]].name),
    decreases ip.len(),
{
    let c = node.children[ip[0]];
    let cpath = join_path(path, c.name);
    let rest = ip.drop_first();
    assert(path_at(path, node, ip) == path_at(cpath, c, rest));
    assert(plain_name(c.name));
    lemma_join(path, c.name);
    if ip.len() == 1 {
        assert(rest.len() == 0);
    } else {
        assert(well_formed(c));
        lemma_path_shape(cpath, c, rest, kind, patterns);
        lemma_dir_prefix_of_child(path, c.name);
        lemma_below_starts(path_at(cpath, c, rest), dir_prefix(cpath), c.children[rest[0]].name);
    }
}

proof fn lemma_path_prefix(path: Seq<char>, node: FsNode, ip: Seq<int>, ip2: Seq<int>, kind: Kind, patterns: Seq<Seq<char>>)
    requires
        well_formed(node),
        reached(node, ip, kind, patterns),
        reached(node, ip2, kind, patterns),
        starts_with(path_at(path, node, ip2), path_at(path, node, ip) + seq!['/']),
    ensures
        ip.len() < ip2.len(),
        ip2.subrange(0, ip.len() as int) == ip,
    decreases ip.len(),
{
    let p = dir_prefix(path);
    let c = node.children[ip[0]];
    let c2 = node.children[ip2[0]];
    let x = path_at(path, node, ip2);
    let y = path_at(path, node, ip);
    let q = p + c.name + seq!['/'];
    lemma_path_shape(path, node, ip, kind, patterns);
    lemma_path_shape(path, node, ip2, kind, patterns);
    if ip.len() == 1 {
        assert(y + seq!['/'] =~= q);
        assert((y + seq!['/']).subrange(0, q.len() as int) =~= q);
    } else {
        assert(starts_with(y + seq!['/'], q)) by {
            assert forall|i: int| 0 <= i < q.len() implies (y + seq!['/']).subrange(0, q.len() as int)[i] == q[i] by {
                lemma_char_at(y, q, i);
            }
            assert((y + seq!['/']).subrange(0, q.len() as int) =~= q);
        }
    }
    lemma_starts_trans(x, y + seq!['/'], q);
    assert(plain_name(c.name) && plain_name(c2.name));
    lemma_below_clash(x, p, c.name, c2.name);
    if ip[0] != ip2[0] {
        if ip[0] < ip2[0] {
            assert(node.children[ip[0]].name != node.children[ip2[0]].name);
        } else {
            assert(node.children[ip2[0]].name != node.children[ip[0]].name);
        }
    }
    assert(ip[0] == ip2[0]);
    if ip2.len() == 1 {
        assert(x == p + c.name);
        assert(false);
    }
    if ip.len() == 1 {
        assert(ip2.subrange(0, 1) =~= ip);
    } else {
        let cpath = join_path(path, c.name);
        assert(path_at(path, node, ip) == path_at(cpath, c, ip.drop_first()));
        assert(path_at(path, node, ip2) == path_at(cpath, c, ip2.drop_first()));
        assert(well_formed(c));
        lemma_path_prefix(cpath, c, ip.drop_first(), ip2.drop_first(), kind, patterns);
        let r1 = ip.drop_first();
        let r2 = ip2.drop_first();
        assert forall|i: int| 0 <= i < ip.len() implies ip2.subrange(0, ip.len() as int)[i] == ip[i] by {
            if i > 0 {
                assert(r2.subrange(0, r1.len() as int)[i - 1] == r1[i - 1]);
            }
        }
        assert(ip2.subrange(0, ip.len() as int) =~= ip);
    }
}

proof fn lemma_reached_prefix_descends(node: FsNode, ip: Seq<int>, k: int, kind: Kind, patterns: Seq<Seq<char>>)
    requires
        reached(node, ip, kind, patterns),
        1 <= k < ip.len(),
    ensures
        descends(entry_of(node_at(node, ip.subrange(0, k))), kind, patterns),
    decreases ip.len(),
{
    let c = node.children[ip[0]];
    let pre = ip.subrange(0, k);
    assert(pre[0] == ip[0]);
    assert(node_at(node, pre) == node_at(c, pre.drop_first()));
    if k == 1 {
        assert(pre.drop_first().len() == 0);
    } else {
        assert(pre.drop_first() =~= ip.drop_first().subrange(0, k - 1));
        lemma_reached_prefix_descends(c, ip.drop_first(), k - 1, kind, patterns);
    }
}

/// Stop at a match, by path: in a tree as a file system gives it, nothing
/// whose path lies inside a matched directory that the walk reaches is ever
/// reported or listed.
pub proof fn lemma_nothing_inside_match(
    path: Seq<char>,
    node: FsNode,
    ip: Seq<int>,
    kind: Kind,
    patterns: Seq<Seq<char>>,
    x: Seq<char>,
)
    requires
        well_formed(node),
        found(node, ip, kind, patterns),
        walk(path, node, kind, patterns).contains(x) || listed(path, node, kind, patterns).contains(x),
    ensures
        !starts_with(x, path_at(path, node, ip) + seq!['/']),
{
    let d = path_at(path, node, ip);
    if starts_with(x, d + seq!['/']) {
        lemma_path_shape(path, node, ip, kind, patterns);
        lemma_below_starts(d, dir_prefix(path), node.children[ip[0]].name);
        assert(plain_name(node.children[ip[0]].name));
        if x == path {
            assert(d.len() > path.len()) by {
                if d == dir_prefix(path) + node.children[ip[0]].name {
                } else {
                    lemma_prefix_longer(d, dir_prefix(path), node.children[ip[0]].name);
                }
            }
            assert(false);
        }
        let ip2 = if walk(path, node, kind, patterns).contains(x) {
            lemma_walk_only(path, node, kind, patterns, x);
            choose|ip2: Seq<int>| found(node, ip2, kind, patterns) && path_at(path, node, ip2) == x
        } else {
            lemma_listed_only(path, node, kind, patterns, x);
            choose|ip2: Seq<int>| reached(node, ip2, kind, patterns)
                && descends(entry_of(node_at(node, ip2)), kind, patterns) && path_at(path, node, ip2) == x
        };
        lemma_path_prefix(path, node, ip, ip2, kind, patterns);
        lemma_reached_prefix_descends(node, ip2, ip.len() as int, kind, patterns);
        assert(ip2.subrange(0, ip.len() as int) == ip);
        assert(false);
    }
}

} // verus!
