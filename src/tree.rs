use crate::config::Kind;
use crate::matcher::{is_match, EntryType, EntryView};
use crate::walker::{descended, descends, join_path, removed};
use vstd::prelude::*;

verus! {

/// A destination tree as the walk sees it: each node with its base name, its
/// type and, for a directory, its children in listing order.
pub struct FsNode {
    pub name: Seq<char>,
    pub entry_type: EntryType,
    pub children: Seq<FsNode>,
}

/// What a listing of the parent says of `n`.
pub open spec fn entry_of(n: FsNode) -> EntryView {
    EntryView { name: n.name, entry_type: n.entry_type }
}

/// The listing of a directory node.
pub open spec fn listing(n: FsNode) -> Seq<EntryView> {
    n.children.map_values(|c: FsNode| entry_of(c))
}

/// The paths that a walk of one rule reports, starting by listing the
/// directory `node` at `path`: first the matches among its children, then
/// the walks of the children it descends into, in listing order.
pub open spec fn walk(path: Seq<char>, node: FsNode, kind: Kind, patterns: Seq<Seq<char>>) -> Seq<Seq<char>>
    decreases node, node.children.len() + 1,
{
    removed(path, listing(node), kind, patterns) + walk_upto(path, node, node.children.len() as int, kind, patterns)
}

/// The walks of the first `n` children of `node` that the walk descends into.
pub open spec fn walk_upto(path: Seq<char>, node: FsNode, n: int, kind: Kind, patterns: Seq<Seq<char>>) -> Seq<Seq<char>>
    decreases node, n,
{
    if n <= 0 || n > node.children.len() {
        seq![]
    } else {
        let c = node.children[n - 1];
        let here = if descends(entry_of(c), kind, patterns) {
            walk(join_path(path, c.name), c, kind, patterns)
        } else {
            seq![]
        };
        walk_upto(path, node, n - 1, kind, patterns) + here
    }
}

/// The node that the positions `ip` lead to from `node`, one position per level.
pub open spec fn node_at(node: FsNode, ip: Seq<int>) -> FsNode
    decreases ip.len(),
{
    if ip.len() == 0 || ip[0] < 0 || ip[0] >= node.children.len() {
        node
    } else {
        node_at(node.children[ip[0]], ip.drop_first())
    }
}

/// The path of the node that `ip` leads to, where `node` stands at `path`.
pub open spec fn path_at(path: Seq<char>, node: FsNode, ip: Seq<int>) -> Seq<char>
    decreases ip.len(),
{
    if ip.len() == 0 || ip[0] < 0 || ip[0] >= node.children.len() {
        path
    } else {
        let c = node.children[ip[0]];
        path_at(join_path(path, c.name), c, ip.drop_first())
    }
}

/// `ip` leads from `node` to a node below it through directories that do
/// not match, each of which the walk therefore descends into.
pub open spec fn reached(node: FsNode, ip: Seq<int>, kind: Kind, patterns: Seq<Seq<char>>) -> bool
    decreases ip.len(),
{
    &&& ip.len() >= 1
    &&& 0 <= ip[0] < node.children.len()
    &&& (ip.len() == 1 || (descends(entry_of(node.children[ip[0]]), kind, patterns)
        && reached(node.children[ip[0]], ip.drop_first(), kind, patterns)))
}

/// The node that `ip` leads to is reached and matches.
pub open spec fn found(node: FsNode, ip: Seq<int>, kind: Kind, patterns: Seq<Seq<char>>) -> bool {
    let n = node_at(node, ip);
    reached(node, ip, kind, patterns) && is_match(n.name, n.entry_type, kind, patterns)
}

proof fn lemma_removed_has(dir: Seq<char>, cs: Seq<EntryView>, kind: Kind, patterns: Seq<Seq<char>>, k: int)
    requires
        0 <= k < cs.len(),
        is_match(cs[k].name, cs[k].entry_type, kind, patterns),
    ensures
        removed(dir, cs, kind, patterns).contains(join_path(dir, cs[k].name)),
    decreases cs.len(),
{
    let rest = removed(dir, cs.drop_last(), kind, patterns);
    if k == cs.len() - 1 {
        assert(removed(dir, cs, kind, patterns).last() == join_path(dir, cs[k].name));
    } else {
        lemma_removed_has(dir, cs.drop_last(), kind, patterns, k);
        let j = choose|j: int| 0 <= j < rest.len() && rest[j] == join_path(dir, cs[k].name);
        assert(removed(dir, cs, kind, patterns)[j] == rest[j]);
    }
}

pub(crate) proof fn lemma_removed_only(dir: Seq<char>, cs: Seq<EntryView>, kind: Kind, patterns: Seq<Seq<char>>, x: Seq<char>)
    requires
        removed(dir, cs, kind, patterns).contains(x),
    ensures
        exists|k: int| 0 <= k < cs.len() && is_match(cs[k].name, cs[k].entry_type, kind, patterns)
            && x == join_path(dir, #[trigger] cs[k].name),
    decreases cs.len(),
{
    let rest = removed(dir, cs.drop_last(), kind, patterns);
    let c = cs.last();
    if rest.contains(x) {
        lemma_removed_only(dir, cs.drop_last(), kind, patterns, x);
        let k = choose|k: int| 0 <= k < cs.drop_last().len()
            && is_match(cs.drop_last()[k].name, cs.drop_last()[k].entry_type, kind, patterns)
            && x == join_path(dir, #[trigger] cs.drop_last()[k].name);
        assert(cs[k] == cs.drop_last()[k]);
    } else {
        assert(is_match(c.name, c.entry_type, kind, patterns) && x == join_path(dir, c.name));
        assert(cs[cs.len() - 1] == c);
    }
}

proof fn lemma_walk_upto_has(path: Seq<char>, node: FsNode, n: int, j: int, kind: Kind, patterns: Seq<Seq<char>>, x: Seq<char>)
    requires
        0 <= j < n <= node.children.len(),
        descends(entry_of(node.children[j]), kind, patterns),
        walk(join_path(path, node.children[j].name), node.children[j], kind, patterns).contains(x),
    ensures
        walk_upto(path, node, n, kind, patterns).contains(x),
    decreases n,
{
    let c = node.children[n - 1];
    let here = if descends(entry_of(c), kind, patterns) {
        walk(join_path(path, c.name), c, kind, patterns)
    } else {
        seq![]
    };
    let before = walk_upto(path, node, n - 1, kind, patterns);
    assert(walk_upto(path, node, n, kind, patterns) == before + here);
    if j == n - 1 {
        let k = choose|k: int| 0 <= k < here.len() && here[k] == x;
        assert((before + here)[before.len() + k] == x);
    } else {
        lemma_walk_upto_has(path, node, n - 1, j, kind, patterns, x);
        let k = choose|k: int| 0 <= k < before.len() && before[k] == x;
        assert((before + here)[k] == x);
    }
}

/// Descent: a match that lies below directories that do not match, at any
/// depth, is reported by the walk, whatever the names of those directories.
pub proof fn lemma_nested_match_found(path: Seq<char>, node: FsNode, ip: Seq<int>, kind: Kind, patterns: Seq<Seq<char>>)
    requires
        found(node, ip, kind, patterns),
    ensures
        walk(path, node, kind, patterns).contains(path_at(path, node, ip)),
    decreases ip.len(),
{
    let i = ip[0];
    let c = node.children[i];
    let cs = listing(node);
    let here = removed(path, cs, kind, patterns);
    let rest = walk_upto(path, node, node.children.len() as int, kind, patterns);
    let x = path_at(path, node, ip);
    if ip.len() == 1 {
        assert(ip.drop_first().len() == 0);
        assert(cs[i] == entry_of(c));
        assert(node_at(c, ip.drop_first()) == c);
        assert(node_at(node, ip) == c);
        assert(path_at(join_path(path, c.name), c, ip.drop_first()) == join_path(path, c.name));
        assert(x == join_path(path, c.name));
        lemma_removed_has(path, cs, kind, patterns, i);
        assert(walk(path, node, kind, patterns) == here + rest);
        let k = choose|k: int| 0 <= k < here.len() && here[k] == x;
        assert((here + rest)[k] == x);
    } else {
        assert(node_at(node, ip) == node_at(c, ip.drop_first()));
        lemma_nested_match_found(join_path(path, c.name), c, ip.drop_first(), kind, patterns);
        lemma_walk_upto_has(path, node, node.children.len() as int, i, kind, patterns, x);
        assert(walk(path, node, kind, patterns) == here + rest);
        let k = choose|k: int| 0 <= k < rest.len() && rest[k] == x;
        assert((here + rest)[here.len() + k] == x);
    }
}

proof fn lemma_walk_upto_only(path: Seq<char>, node: FsNode, n: int, kind: Kind, patterns: Seq<Seq<char>>, x: Seq<char>)
    requires
        walk_upto(path, node, n, kind, patterns).contains(x),
    ensures
        exists|ip: Seq<int>| found(node, ip, kind, patterns) && path_at(path, node, ip) == x,
    decreases node, n,
{
    if n <= 0 || n > node.children.len() {
        assert(walk_upto(path, node, n, kind, patterns).len() == 0);
    } else {
        let i = n - 1;
        let c = node.children[i];
        let here = if descends(entry_of(c), kind, patterns) {
            walk(join_path(path, c.name), c, kind, patterns)
        } else {
            seq![]
        };
        let before = walk_upto(path, node, n - 1, kind, patterns);
        let k = choose|k: int| 0 <= k < (before + here).len() && (before + here)[k] == x;
        if k >= before.len() {
            assert(here.contains(x)) by {
                assert(here[k - before.len()] == x);
            }
            lemma_walk_only(join_path(path, c.name), c, kind, patterns, x);
            let ip2 = choose|ip2: Seq<int>| found(c, ip2, kind, patterns) && path_at(join_path(path, c.name), c, ip2) == x;
            let ip = seq![i].add(ip2);
            assert(ip.drop_first() =~= ip2);
            assert(ip[0] == i);
            assert(node_at(node, ip) == node_at(c, ip2));
            assert(path_at(path, node, ip) == path_at(join_path(path, c.name), c, ip2));
            assert(found(node, ip, kind, patterns) && path_at(path, node, ip) == x);
        } else {
            assert(before.contains(x)) by {
                assert(before[k] == x);
            }
            lemma_walk_upto_only(path, node, n - 1, kind, patterns, x);
        }
    }
}

/// Stop at a match: every path that the walk reports is that of a match
/// reached through directories that do not match. So nothing that lies
/// inside a matched directory is ever reported on its own.
pub proof fn lemma_walk_only(path: Seq<char>, node: FsNode, kind: Kind, patterns: Seq<Seq<char>>, x: Seq<char>)
    requires
        walk(path, node, kind, patterns).contains(x),
    ensures
        exists|ip: Seq<int>| found(node, ip, kind, patterns) && path_at(path, node, ip) == x,
    decreases node, node.children.len() + 1,
{
    let cs = listing(node);
    let here = removed(path, cs, kind, patterns);
    let rest = walk_upto(path, node, node.children.len() as int, kind, patterns);
    let k = choose|k: int| 0 <= k < (here + rest).len() && (here + rest)[k] == x;
    if k < here.len() {
        assert(here.contains(x)) by {
            assert(here[k] == x);
        }
        lemma_removed_only(path, cs, kind, patterns, x);
        let j = choose|j: int| 0 <= j < cs.len() && is_match(cs[j].name, cs[j].entry_type, kind, patterns)
            && x == join_path(path, #[trigger] cs[j].name);
        let ip = seq![j];
        let c = node.children[j];
        assert(ip.drop_first().len() == 0);
        assert(cs[j] == entry_of(c));
        assert(node_at(c, ip.drop_first()) == c);
        assert(node_at(node, ip) == c);
        assert(path_at(join_path(path, c.name), c, ip.drop_first()) == join_path(path, c.name));
        assert(found(node, ip, kind, patterns) && path_at(path, node, ip) == x);
    } else {
        assert(rest.contains(x)) by {
            assert(rest[k - here.len()] == x);
        }
        lemma_walk_upto_only(path, node, node.children.len() as int, kind, patterns, x);
    }
}

/// The directories that a walk lists, starting with `node` at `path`, in
/// the order it lists them.
pub open spec fn listed(path: Seq<char>, node: FsNode, kind: Kind, patterns: Seq<Seq<char>>) -> Seq<Seq<char>>
    decreases node, node.children.len() + 1,
{
    seq![path] + listed_upto(path, node, node.children.len() as int, kind, patterns)
}

/// The directories that the walks of the first `n` children of `node` list.
pub open spec fn listed_upto(path: Seq<char>, node: FsNode, n: int, kind: Kind, patterns: Seq<Seq<char>>) -> Seq<Seq<char>>
    decreases node, n,
{
    if n <= 0 || n > node.children.len() {
        seq![]
    } else {
        let c = node.children[n - 1];
        let here = if descends(entry_of(c), kind, patterns) {
            listed(join_path(path, c.name), c, kind, patterns)
        } else {
            seq![]
        };
        listed_upto(path, node, n - 1, kind, patterns) + here
    }
}

proof fn lemma_listed_upto_only(path: Seq<char>, node: FsNode, n: int, kind: Kind, patterns: Seq<Seq<char>>, x: Seq<char>)
    requires
        listed_upto(path, node, n, kind, patterns).contains(x),
    ensures
        exists|ip: Seq<int>| reached(node, ip, kind, patterns)
            && descends(entry_of(node_at(node, ip)), kind, patterns) && path_at(path, node, ip) == x,
    decreases node, n,
{
    if n <= 0 || n > node.children.len() {
        assert(listed_upto(path, node, n, kind, patterns).len() == 0);
    } else {
        let i = n - 1;
        let c = node.children[i];
        let here = if descends(entry_of(c), kind, patterns) {
            listed(join_path(path, c.name), c, kind, patterns)
        } else {
            seq![]
        };
        let before = listed_upto(path, node, n - 1, kind, patterns);
        let k = choose|k: int| 0 <= k < (before + here).len() && (before + here)[k] == x;
        if k >= before.len() {
            assert(here.contains(x)) by {
                assert(here[k - before.len()] == x);
            }
            let cpath = join_path(path, c.name);
            if x == cpath {
                let ip = seq![i];
                assert(ip.drop_first().len() == 0);
                assert(node_at(c, ip.drop_first()) == c);
                assert(node_at(node, ip) == c);
                assert(path_at(cpath, c, ip.drop_first()) == cpath);
                assert(path_at(path, node, ip) == cpath);
                assert(descends(entry_of(c), kind, patterns));
                assert(reached(node, ip, kind, patterns));
                assert(reached(node, ip, kind, patterns) && descends(entry_of(node_at(node, ip)), kind, patterns)
                    && path_at(path, node, ip) == x);
            } else {
                lemma_listed_only(cpath, c, kind, patterns, x);
                let ip2 = choose|ip2: Seq<int>| reached(c, ip2, kind, patterns)
                    && descends(entry_of(node_at(c, ip2)), kind, patterns) && path_at(cpath, c, ip2) == x;
                let ip = seq![i].add(ip2);
                assert(ip.drop_first() =~= ip2);
                assert(ip[0] == i);
                assert(node_at(node, ip) == node_at(c, ip2));
                assert(path_at(path, node, ip) == path_at(cpath, c, ip2));
                assert(reached(node, ip, kind, patterns));
            }
        } else {
            assert(before.contains(x)) by {
                assert(before[k] == x);
            }
            lemma_listed_upto_only(path, node, n - 1, kind, patterns, x);
        }
    }
}

/// Stop at a match, for listings: besides its start, a walk lists only
/// directories that do not match, reached through directories that do not
/// match. So the contents of a matched directory are never even listed.
pub proof fn lemma_listed_only(path: Seq<char>, node: FsNode, kind: Kind, patterns: Seq<Seq<char>>, x: Seq<char>)
    requires
        listed(path, node, kind, patterns).contains(x),
        x != path,
    ensures
        exists|ip: Seq<int>| reached(node, ip, kind, patterns)
            && descends(entry_of(node_at(node, ip)), kind, patterns) && path_at(path, node, ip) == x,
    decreases node, node.children.len() + 1,
{
    let rest = listed_upto(path, node, node.children.len() as int, kind, patterns);
    let k = choose|k: int| 0 <= k < (seq![path] + rest).len() && (seq![path] + rest)[k] == x;
    assert(k >= 1);
    assert(rest.contains(x)) by {
        assert(rest[k - 1] == x);
    }
    lemma_listed_upto_only(path, node, node.children.len() as int, kind, patterns, x);
}

/// The reports of the walks of a sequence of directories, one after another.
pub open spec fn walks_of(s: Seq<(Seq<char>, FsNode)>, kind: Kind, patterns: Seq<Seq<char>>) -> Seq<Seq<char>>
    decreases s.len(),
{
    if s.len() == 0 {
        seq![]
    } else {
        walks_of(s.drop_last(), kind, patterns) + walk(s.last().0, s.last().1, kind, patterns)
    }
}

/// What is still to be reported from a stack of directories to list, each
/// with its path and the tree below it; the last is listed next.
pub open spec fn pending_walks(stack: Seq<(Seq<char>, FsNode)>, kind: Kind, patterns: Seq<Seq<char>>) -> Seq<Seq<char>> {
    walks_of(stack.reverse(), kind, patterns)
}

/// The paths of a stack of directories.
pub open spec fn stack_paths(s: Seq<(Seq<char>, FsNode)>) -> Seq<Seq<char>> {
    s.map_values(|p: (Seq<char>, FsNode)| p.0)
}

/// The children among the first `n` of `node` at `path` that the walk
/// descends into, each with its path, in listing order.
pub open spec fn descended_nodes(path: Seq<char>, node: FsNode, n: int, kind: Kind, patterns: Seq<Seq<char>>) -> Seq<(Seq<char>, FsNode)>
    decreases n,
{
    if n <= 0 || n > node.children.len() {
        seq![]
    } else {
        let c = node.children[n - 1];
        let d = descended_nodes(path, node, n - 1, kind, patterns);
        if descends(entry_of(c), kind, patterns) {
            d.push((join_path(path, c.name), c))
        } else {
            d
        }
    }
}

proof fn lemma_walks_of_concat(a: Seq<(Seq<char>, FsNode)>, b: Seq<(Seq<char>, FsNode)>, kind: Kind, patterns: Seq<Seq<char>>)
    ensures
        walks_of(a + b, kind, patterns) == walks_of(a, kind, patterns) + walks_of(b, kind, patterns),
    decreases b.len(),
{
    if b.len() == 0 {
        assert(a + b =~= a);
        assert(walks_of(a, kind, patterns) + walks_of(b, kind, patterns) =~= walks_of(a, kind, patterns));
    } else {
        assert((a + b).drop_last() =~= a + b.drop_last());
        assert((a + b).last() == b.last());
        lemma_walks_of_concat(a, b.drop_last(), kind, patterns);
        let l = b.last();
        assert(walks_of(a, kind, patterns) + walks_of(b.drop_last(), kind, patterns) + walk(l.0, l.1, kind, patterns)
            =~= walks_of(a, kind, patterns) + (walks_of(b.drop_last(), kind, patterns) + walk(l.0, l.1, kind, patterns)));
    }
}

proof fn lemma_walk_upto_is_walks_of(path: Seq<char>, node: FsNode, n: int, kind: Kind, patterns: Seq<Seq<char>>)
    requires
        0 <= n <= node.children.len(),
    ensures
        walk_upto(path, node, n, kind, patterns) == walks_of(descended_nodes(path, node, n, kind, patterns), kind, patterns),
        stack_paths(descended_nodes(path, node, n, kind, patterns))
            == descended(path, listing(node).subrange(0, n), kind, patterns),
    decreases n,
{
    let cs = listing(node).subrange(0, n);
    if n == 0 {
        assert(stack_paths(descended_nodes(path, node, n, kind, patterns)) =~= seq![]);
    } else {
        lemma_walk_upto_is_walks_of(path, node, n - 1, kind, patterns);
        let c = node.children[n - 1];
        let d = descended_nodes(path, node, n - 1, kind, patterns);
        assert(cs.drop_last() =~= listing(node).subrange(0, n - 1));
        assert(cs.last() == entry_of(c));
        if descends(entry_of(c), kind, patterns) {
            let e = (join_path(path, c.name), c);
            assert(d.push(e).drop_last() =~= d);
            assert(stack_paths(d.push(e)) =~= stack_paths(d).push(e.0));
        } else {
            assert(walk_upto(path, node, n - 1, kind, patterns) + seq![] =~= walk_upto(path, node, n - 1, kind, patterns));
        }
    }
}

/// One step of a walk: listing the next directory of the stack, reporting
/// the matches among its children and putting the children it descends into
/// on the stack, in reverse so that the first is listed next, leaves what is
/// still to be reported unchanged. So a walker whose `pending` holds the
/// paths of such a stack, and to which each listed directory's listing is
/// handed, reports `walk` of its destination in full, in this order.
#[verifier::rlimit(30)]
pub proof fn lemma_visit_step(stack: Seq<(Seq<char>, FsNode)>, kind: Kind, patterns: Seq<Seq<char>>)
    requires
        stack.len() > 0,
    ensures
        ({
            let (path, node) = stack.last();
            let down = descended_nodes(path, node, node.children.len() as int, kind, patterns);
            let next = stack.drop_last() + down.reverse();
            &&& pending_walks(stack, kind, patterns)
                == removed(path, listing(node), kind, patterns) + pending_walks(next, kind, patterns)
            &&& stack_paths(next) == stack_paths(stack).drop_last()
                + descended(path, listing(node), kind, patterns).reverse()
        }),
{
    let (path, node) = stack.last();
    let n = node.children.len() as int;
    let down = descended_nodes(path, node, n, kind, patterns);
    let rest = stack.drop_last();
    let next = rest + down.reverse();
    lemma_walk_upto_is_walks_of(path, node, n, kind, patterns);
    assert(listing(node).subrange(0, n) =~= listing(node));
    assert(stack.reverse() =~= seq![stack.last()] + rest.reverse());
    lemma_walks_of_concat(seq![stack.last()], rest.reverse(), kind, patterns);
    assert(seq![stack.last()].drop_last() =~= Seq::<(Seq<char>, FsNode)>::empty());
    assert(seq![stack.last()].last() == (path, node));
    assert(walks_of(Seq::<(Seq<char>, FsNode)>::empty(), kind, patterns) =~= seq![]);
    assert(walks_of(seq![stack.last()], kind, patterns) =~= walk(path, node, kind, patterns));
    assert(next.reverse() =~= down + rest.reverse());
    lemma_walks_of_concat(down, rest.reverse(), kind, patterns);
    let r = removed(path, listing(node), kind, patterns);
    assert(r + walks_of(down, kind, patterns) + walks_of(rest.reverse(), kind, patterns)
        =~= r + (walks_of(down, kind, patterns) + walks_of(rest.reverse(), kind, patterns)));
    assert(stack_paths(next) =~= stack_paths(stack).drop_last() + stack_paths(down).reverse());
}

/// A walk starts with its destination alone on the stack, which owes the
/// whole walk, and ends with an empty stack, which owes nothing.
pub proof fn lemma_walk_bounds(path: Seq<char>, node: FsNode, kind: Kind, patterns: Seq<Seq<char>>)
    ensures
        pending_walks(seq![(path, node)], kind, patterns) == walk(path, node, kind, patterns),
        pending_walks(Seq::<(Seq<char>, FsNode)>::empty(), kind, patterns) == Seq::<Seq<char>>::empty(),
{
    let one = seq![(path, node)];
    assert(one.reverse() =~= one);
    assert(one.drop_last() =~= Seq::<(Seq<char>, FsNode)>::empty());
    assert(Seq::<(Seq<char>, FsNode)>::empty().reverse() =~= Seq::<(Seq<char>, FsNode)>::empty());
    assert(walks_of(Seq::<(Seq<char>, FsNode)>::empty(), kind, patterns) =~= seq![]);
    assert(walks_of(one, kind, patterns) =~= walk(path, node, kind, patterns));
}

} // verus!
