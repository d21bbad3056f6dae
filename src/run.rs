use crate::config::Kind;
use crate::tree::{descended_nodes, entry_of, listed, listed_upto, FsNode};
use crate::walker::{descends, join_path};
use vstd::prelude::*;

verus! {

/// The directories that the walks of a sequence of directories list, one
/// walk after another.
pub open spec fn listeds_of(s: Seq<(Seq<char>, FsNode)>, kind: Kind, patterns: Seq<Seq<char>>) -> Seq<Seq<char>>
    decreases s.len(),
{
    if s.len() == 0 {
        seq![]
    } else {
        listeds_of(s.drop_last(), kind, patterns) + listed(s.last().0, s.last().1, kind, patterns)
    }
}

/// The directories still to be listed from a stack of directories, each
/// with its path and the tree below it; the last is listed next.
pub open spec fn pending_listed(stack: Seq<(Seq<char>, FsNode)>, kind: Kind, patterns: Seq<Seq<char>>) -> Seq<Seq<char>> {
    listeds_of(stack.reverse(), kind, patterns)
}

proof fn lemma_listeds_of_concat(a: Seq<(Seq<char>, FsNode)>, b: Seq<(Seq<char>, FsNode)>, kind: Kind, patterns: Seq<Seq<char>>)
    ensures
        listeds_of(a + b, kind, patterns) == listeds_of(a, kind, patterns) + listeds_of(b, kind, patterns),
    decreases b.len(),
{
    if b.len() == 0 {
        assert(a + b =~= a);
        assert(listeds_of(a, kind, patterns) + listeds_of(b, kind, patterns) =~= listeds_of(a, kind, patterns));
    } else {
        assert((a + b).drop_last() =~= a + b.drop_last());
        assert((a + b).last() == b.last());
        lemma_listeds_of_concat(a, b.drop_last(), kind, patterns);
        let l = b.last();
        assert(listeds_of(a, kind, patterns) + listeds_of(b.drop_last(), kind, patterns) + listed(l.0, l.1, kind, patterns)
            =~= listeds_of(a, kind, patterns) + (listeds_of(b.drop_last(), kind, patterns) + listed(l.0, l.1, kind, patterns)));
    }
}

proof fn lemma_listed_upto_is_listeds_of(path: Seq<char>, node: FsNode, n: int, kind: Kind, patterns: Seq<Seq<char>>)
    requires
        0 <= n <= node.children.len(),
    ensures
        listed_upto(path, node, n, kind, patterns) == listeds_of(descended_nodes(path, node, n, kind, patterns), kind, patterns),
    decreases n,
{
    if n > 0 {
        lemma_listed_upto_is_listeds_of(path, node, n - 1, kind, patterns);
        let c = node.children[n - 1];
        let d = descended_nodes(path, node, n - 1, kind, patterns);
        if descends(entry_of(c), kind, patterns) {
            let e = (join_path(path, c.name), c);
            assert(d.push(e).drop_last() =~= d);
        } else {
            assert(listed_upto(path, node, n - 1, kind, patterns) + seq![] =~= listed_upto(path, node, n - 1, kind, patterns));
        }
    }
}

/// One step of a walk, for listings: the directory listed is the first of
/// those still to be listed, and after the step the stack owes exactly the
/// rest. Every step thus shortens what is owed by one, so a walker fed the
/// listings of a tree, as `lemma_visit_step` describes, ends after listing
/// each directory of `listed` of its destination, in that order.
#[verifier::rlimit(30)]
pub proof fn lemma_list_step(stack: Seq<(Seq<char>, FsNode)>, kind: Kind, patterns: Seq<Seq<char>>)
    requires
        stack.len() > 0,
    ensures
        ({
            let (path, node) = stack.last();
            let down = descended_nodes(path, node, node.children.len() as int, kind, patterns);
            let next = stack.drop_last() + down.reverse();
            &&& pending_listed(stack, kind, patterns) == seq![path] + pending_listed(next, kind, patterns)
            &&& pending_listed(next, kind, patterns).len() + 1 == pending_listed(stack, kind, patterns).len()
        }),
{
    let (path, node) = stack.last();
    let n = node.children.len() as int;
    let down = descended_nodes(path, node, n, kind, patterns);
    let rest = stack.drop_last();
    let next = rest + down.reverse();
    lemma_listed_upto_is_listeds_of(path, node, n, kind, patterns);
    assert(stack.reverse() =~= seq![stack.last()] + rest.reverse());
    lemma_listeds_of_concat(seq![stack.last()], rest.reverse(), kind, patterns);
    assert(seq![stack.last()].drop_last() =~= Seq::<(Seq<char>, FsNode)>::empty());
    assert(seq![stack.last()].last() == (path, node));
    assert(listeds_of(Seq::<(Seq<char>, FsNode)>::empty(), kind, patterns) =~= seq![]);
    assert(listeds_of(seq![stack.last()], kind, patterns) =~= listed(path, node, kind, patterns));
    assert(next.reverse() =~= down + rest.reverse());
    lemma_listeds_of_concat(down, rest.reverse(), kind, patterns);
    let l = listed_upto(path, node, n, kind, patterns);
    assert(seq![path] + l + listeds_of(rest.reverse(), kind, patterns)
        =~= seq![path] + (l + listeds_of(rest.reverse(), kind, patterns)));
}

/// A walk starts owing the listings of its destination's whole tree, and
/// owes none once its stack is empty.
pub proof fn lemma_listed_bounds(path: Seq<char>, node: FsNode, kind: Kind, patterns: Seq<Seq<char>>)
    ensures
        pending_listed(seq![(path, node)], kind, patterns) == listed(path, node, kind, patterns),
        pending_listed(Seq::<(Seq<char>, FsNode)>::empty(), kind, patterns) == Seq::<Seq<char>>::empty(),
{
    let one = seq![(path, node)];
    assert(one.reverse() =~= one);
    assert(one.drop_last() =~= Seq::<(Seq<char>, FsNode)>::empty());
    assert(Seq::<(Seq<char>, FsNode)>::empty().reverse() =~= Seq::<(Seq<char>, FsNode)>::empty());
    assert(listeds_of(Seq::<(Seq<char>, FsNode)>::empty(), kind, patterns) =~= seq![]);
    assert(listeds_of(one, kind, patterns) =~= listed(path, node, kind, patterns));
}

} // verus!
