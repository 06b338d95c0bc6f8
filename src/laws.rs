use vstd::prelude::*;

use crate::headers::Depth;
use crate::path::{components, is_dot_component, is_under, resolve, sandboxed, split_acc};
use crate::verbs::{decide_spec, parent_of, Probe, Status, Verb};
use crate::tree::{
    apply_all, apply_op, copy_op, within, copy_ops, delete_ops, is_dir_in, parents_first, remove_op, strictly_under, Fs,
    Node, OpModel,
};

verus! {

proof fn lemma_join_under(base: Seq<Seq<char>>, a: Seq<Seq<char>>)
    ensures
        is_under(base, base + a),
        (base + a).len() == base.len() + a.len(),
{
    assert((base + a).subrange(0, base.len() as int) =~= base);
}

proof fn lemma_join_cancel(base: Seq<Seq<char>>, a: Seq<Seq<char>>, b: Seq<Seq<char>>)
    requires
        base + a == base + b,
    ensures
        a == b,
{
    assert(a =~= (base + a).subrange(base.len() as int, (base + a).len() as int));
    assert(b =~= (base + b).subrange(base.len() as int, (base + b).len() as int));
}

proof fn lemma_under_trans(a: Seq<Seq<char>>, b: Seq<Seq<char>>, c: Seq<Seq<char>>)
    requires
        is_under(a, b),
        is_under(b, c),
    ensures
        is_under(a, c),
{
    assert(c.subrange(0, a.len() as int) =~= c.subrange(0, b.len() as int).subrange(0, a.len() as int));
}

/// A request path with a "." or ".." component resolves to nothing, whatever
/// the root.
pub proof fn law_traversal_rejected(root: Seq<Seq<char>>, uri: Seq<char>, i: int)
    requires
        0 <= i < components(uri).len(),
        is_dot_component(components(uri)[i]),
    ensures
        resolve(root, uri) is None,
{
    let p = root + components(uri);
    assert(p[root.len() + i] == components(uri)[i]);
}

/// The text "/c1/c2/..." of a list of components.
pub open spec fn joined(cs: Seq<Seq<char>>) -> Seq<char>
    decreases cs.len(),
{
    if cs.len() == 0 {
        Seq::empty()
    } else {
        joined(cs.drop_last()).push('/') + cs.last()
    }
}

/// `c` holds no separator.
pub open spec fn no_separator(c: Seq<char>) -> bool {
    forall|i: int| 0 <= i < c.len() ==> c[i] != '/'
}

proof fn lemma_split_append(s: Seq<char>, c: Seq<char>)
    requires
        no_separator(c),
    ensures
        split_acc(s + c) == (split_acc(s).0, split_acc(s).1 + c),
    decreases c.len(),
{
    if c.len() == 0 {
        assert(s + c =~= s);
        assert(split_acc(s).1 + c =~= split_acc(s).1);
    } else {
        let c2 = c.drop_last();
        assert forall|i: int| 0 <= i < c2.len() implies c2[i] != '/' by {
            assert(c2[i] == c[i]);
        }
        lemma_split_append(s, c2);
        assert((s + c).drop_last() =~= s + c2);
        assert(c[c.len() - 1] != '/');
        assert(split_acc(s).1 + c =~= (split_acc(s).1 + c2).push(c.last()));
    }
}

proof fn lemma_components_plain(s: Seq<char>)
    ensures
        forall|i: int|
            0 <= i < split_acc(s).0.len() ==> (#[trigger] split_acc(s).0[i]).len() > 0 && no_separator(
                split_acc(s).0[i],
            ),
        no_separator(split_acc(s).1),
    decreases s.len(),
{
    if s.len() > 0 {
        lemma_components_plain(s.drop_last());
        let prev = split_acc(s.drop_last());
        if s.last() != '/' {
            let cur = prev.1.push(s.last());
            assert forall|i: int| 0 <= i < cur.len() implies cur[i] != '/' by {
                if i < prev.1.len() {
                    assert(cur[i] == prev.1[i]);
                }
            }
        } else if prev.1.len() > 0 {
            let done = prev.0.push(prev.1);
            assert forall|i: int| 0 <= i < done.len() implies (#[trigger] done[i]).len() > 0
                && no_separator(done[i]) by {
                if i < prev.0.len() {
                    assert(done[i] == prev.0[i]);
                }
            }
        }
    }
}

proof fn lemma_joined_components(cs: Seq<Seq<char>>)
    requires
        forall|i: int| 0 <= i < cs.len() ==> (#[trigger] cs[i]).len() > 0 && no_separator(cs[i]),
    ensures
        components(joined(cs)) == cs,
        cs.len() == 0 ==> split_acc(joined(cs)).1.len() == 0,
        cs.len() > 0 ==> split_acc(joined(cs)) == (cs.drop_last(), cs.last()),
    decreases cs.len(),
{
    if cs.len() > 0 {
        let cs2 = cs.drop_last();
        assert forall|i: int| 0 <= i < cs2.len() implies (#[trigger] cs2[i]).len() > 0 && no_separator(cs2[i]) by {
            assert(cs2[i] == cs[i]);
        }
        lemma_joined_components(cs2);
        let head = joined(cs2).push('/');
        assert(head.drop_last() =~= joined(cs2));
        if cs2.len() > 0 {
            assert(cs2.drop_last().push(cs2.last()) =~= cs2);
        }
        assert(split_acc(head) == (cs2, Seq::<char>::empty()));
        assert(cs[cs.len() - 1] == cs.last());
        lemma_split_append(head, cs.last());
        assert(Seq::<char>::empty() + cs.last() =~= cs.last());
        assert(cs2.push(cs.last()) =~= cs);
    } else {
        assert(split_acc(joined(cs)) == (Seq::<Seq<char>>::empty(), Seq::<char>::empty()));
    }
}

/// A resolved path lies under the root and holds no "." or ".." component;
/// resolving the text of its part below the root gives the same path again.
pub proof fn law_resolve_stable(root: Seq<Seq<char>>, uri: Seq<char>)
    requires
        resolve(root, uri) is Some,
    ensures
        ({
            let p = resolve(root, uri)->0;
            &&& sandboxed(root, p)
            &&& resolve(root, joined(p.subrange(root.len() as int, p.len() as int))) == Some(p)
        }),
{
    let p = resolve(root, uri)->0;
    let cs = components(uri);
    assert(p.subrange(root.len() as int, p.len() as int) =~= cs);
    lemma_components_plain(uri);
    assert forall|i: int| 0 <= i < cs.len() implies (#[trigger] cs[i]).len() > 0 && no_separator(cs[i]) by {
        let acc = split_acc(uri);
        if i < acc.0.len() {
            assert(cs[i] == acc.0[i]);
        }
    }
    lemma_joined_components(cs);
}

/// `es` lists exactly the subtree of `fs` at `base`, each path once, with
/// its kind, and no entry after a deeper one.
pub open spec fn lists_subtree(fs: Fs, base: Seq<Seq<char>>, es: Seq<(Seq<Seq<char>>, bool)>) -> bool {
    &&& forall|i: int|
        0 <= i < es.len() ==> fs.contains_key(base + #[trigger] es[i].0) && (fs[base
            + es[i].0] is Dir <==> es[i].1)
    &&& forall|q: Seq<Seq<char>>|
        #![trigger fs.contains_key(q)]
        fs.contains_key(q) && is_under(base, q) ==> exists|i: int|
            0 <= i < es.len() && q == base + #[trigger] es[i].0
    &&& forall|i: int, j: int|
        0 <= i < j < es.len() ==> es[i].0 != es[j].0 && es[i].0.len() <= es[j].0.len()
}

/// Deleting a listed subtree succeeds, and afterwards exactly the paths
/// outside the subtree remain, `base` itself included among those removed,
/// with their nodes unchanged.
pub proof fn law_delete_removes_subtree(fs: Fs, base: Seq<Seq<char>>, es: Seq<(Seq<Seq<char>>, bool)>)
    requires
        lists_subtree(fs, base, es),
    ensures
        apply_all(fs, delete_ops(base, es)) is Some,
        ({
            let r = apply_all(fs, delete_ops(base, es))->0;
            &&& forall|q: Seq<Seq<char>>|
                #[trigger] r.contains_key(q) <==> fs.contains_key(q) && !is_under(base, q)
            &&& forall|q: Seq<Seq<char>>| #[trigger] r.contains_key(q) ==> r[q] == fs[q]
        }),
    decreases es.len(),
{
    if es.len() == 0 {
        assert forall|q: Seq<Seq<char>>| fs.contains_key(q) implies !is_under(base, q) by {
            if is_under(base, q) {
                assert(fs.contains_key(q));
            }
        }
    } else {
        let n = es.len() - 1;
        let last = es[n];
        let p = base + last.0;
        lemma_join_under(base, last.0);
        assert(fs.contains_key(base + es[n].0));
        if last.1 {
            assert forall|q: Seq<Seq<char>>| #![trigger fs.contains_key(q)] fs.contains_key(q) implies !strictly_under(p, q) by {
                if strictly_under(p, q) {
                    lemma_under_trans(base, p, q);
                    let i = choose|i: int| 0 <= i < es.len() && q == base + #[trigger] es[i].0;
                    lemma_join_under(base, es[i].0);
                    if i < n {
                        assert(es[i].0.len() <= es[n].0.len());
                    }
                }
            }
        }
        assert(apply_op(fs, remove_op(base, last)) == Some(fs.remove(p)));
        let fs2 = fs.remove(p);
        let es2 = es.drop_last();
        assert forall|i: int| 0 <= i < es2.len() implies fs2.contains_key(base + #[trigger] es2[i].0)
            && (fs2[base + es2[i].0] is Dir <==> es2[i].1) by {
            assert(es2[i] == es[i]);
            assert(fs.contains_key(base + es[i].0));
            if base + es[i].0 == p {
                lemma_join_cancel(base, es[i].0, last.0);
            }
        }
        assert forall|q: Seq<Seq<char>>| #![trigger fs2.contains_key(q)] fs2.contains_key(q) && is_under(base, q) implies exists|i: int|
            0 <= i < es2.len() && q == base + #[trigger] es2[i].0 by {
            assert(fs.contains_key(q));
            let i = choose|i: int| 0 <= i < es.len() && q == base + #[trigger] es[i].0;
            assert(i != n);
            assert(es2[i] == es[i]);
        }
        assert forall|i: int, j: int| 0 <= i < j < es2.len() implies es2[i].0 != es2[j].0 && es2[i].0.len() <= es2[j].0.len() by {
            assert(es2[i] == es[i] && es2[j] == es[j]);
        }
        law_delete_removes_subtree(fs2, base, es2);
        let ops = delete_ops(base, es);
        assert(ops[0] == remove_op(base, last));
        assert(ops.drop_first() =~= delete_ops(base, es2));
        let r = apply_all(fs2, delete_ops(base, es2))->0;
        assert forall|q: Seq<Seq<char>>| #[trigger] r.contains_key(q) <==> fs.contains_key(q) && !is_under(base, q) by {
            if q == p {
                assert(is_under(base, p));
            }
        }
    }
}

proof fn lemma_apply_concat(fs: Fs, a: Seq<OpModel>, b: Seq<OpModel>)
    ensures
        apply_all(fs, a + b) == match apply_all(fs, a) {
            Some(f) => apply_all(f, b),
            None => None,
        },
    decreases a.len(),
{
    if a.len() > 0 {
        assert((a + b)[0] == a[0]);
        assert((a + b).drop_first() =~= a.drop_first() + b);
        if let Some(next) = apply_op(fs, a[0]) {
            lemma_apply_concat(next, a.drop_first(), b);
        }
    } else {
        assert(a + b =~= b);
    }
}

/// Moving is copying the whole subtree and then deleting the source: the
/// move succeeds exactly when both phases do, with the same outcome.
pub proof fn law_move_is_copy_then_delete(
    fs: Fs,
    src: Seq<Seq<char>>,
    dest: Seq<Seq<char>>,
    es: Seq<(Seq<Seq<char>>, bool)>,
)
    ensures
        apply_all(fs, copy_ops(src, dest, es, Depth::Infinite) + delete_ops(src, es)) == match apply_all(
            fs,
            copy_ops(src, dest, es, Depth::Infinite),
        ) {
            Some(f) => apply_all(f, delete_ops(src, es)),
            None => None,
        },
{
    lemma_apply_concat(fs, copy_ops(src, dest, es, Depth::Infinite), delete_ops(src, es));
}

/// Every path but the top has a directory as its parent.
pub open spec fn is_tree(fs: Fs) -> bool {
    forall|q: Seq<Seq<char>>| #[trigger] fs.contains_key(q) && q.len() > 0 ==> is_dir_in(fs, q.drop_last())
}

proof fn lemma_nothing_below_absent(fs: Fs, dest: Seq<Seq<char>>, q: Seq<Seq<char>>)
    requires
        is_tree(fs),
        !fs.contains_key(dest),
        fs.contains_key(q),
    ensures
        !is_under(dest, q),
    decreases q.len(),
{
    if is_under(dest, q) {
        if q.len() == dest.len() {
            assert(q =~= q.subrange(0, dest.len() as int));
        } else {
            let q2 = q.drop_last();
            assert(q2.subrange(0, dest.len() as int) =~= q.subrange(0, dest.len() as int));
            lemma_nothing_below_absent(fs, dest, q2);
        }
    }
}

proof fn lemma_dest_free(fs: Fs, dest: Seq<Seq<char>>)
    requires
        is_tree(fs),
        !fs.contains_key(dest),
    ensures
        forall|q: Seq<Seq<char>>| #[trigger] fs.contains_key(q) ==> !is_under(dest, q),
{
    assert forall|q: Seq<Seq<char>>| #[trigger] fs.contains_key(q) implies !is_under(dest, q) by {
        lemma_nothing_below_absent(fs, dest, q);
    }
}

proof fn lemma_depth_zero_ops(
    src: Seq<Seq<char>>,
    dest: Seq<Seq<char>>,
    es: Seq<(Seq<Seq<char>>, bool)>,
)
    requires
        es.len() > 0,
        es[0].0.len() == 0,
        es[0].1,
        forall|i: int| 0 < i < es.len() ==> (#[trigger] es[i]).0.len() > 0,
    ensures
        copy_ops(src, dest, es, Depth::Levels(0)) == seq![OpModel::MakeDir(dest)],
    decreases es.len(),
{
    assert(dest + es[0].0 =~= dest);
    if es.len() == 1 {
        assert(es.drop_last() =~= Seq::<(Seq<Seq<char>>, bool)>::empty());
        assert(copy_ops(src, dest, es.drop_last(), Depth::Levels(0)) == Seq::<OpModel>::empty());
        assert(es.last() == es[0]);
        assert(within(Depth::Levels(0), es.last().0.len()));
        assert(copy_ops(src, dest, es, Depth::Levels(0)) =~= seq![copy_op(src, dest, es[0])]);
    } else {
        let es2 = es.drop_last();
        assert(es2[0] == es[0]);
        assert forall|i: int| 0 < i < es2.len() implies (#[trigger] es2[i]).0.len() > 0 by {
            assert(es2[i] == es[i]);
        }
        lemma_depth_zero_ops(src, dest, es2);
        assert(es[es.len() - 1].0.len() > 0);
        assert(copy_ops(src, dest, es, Depth::Levels(0)) =~= copy_ops(src, dest, es2, Depth::Levels(0)));
    }
}

/// Copying a directory at depth zero makes the destination one new, empty
/// directory and copies none of the children.
pub proof fn law_copy_depth_zero(
    fs: Fs,
    src: Seq<Seq<char>>,
    dest: Seq<Seq<char>>,
    es: Seq<(Seq<Seq<char>>, bool)>,
)
    requires
        es.len() > 0,
        es[0].0.len() == 0,
        es[0].1,
        forall|i: int| 0 < i < es.len() ==> (#[trigger] es[i]).0.len() > 0,
        dest.len() > 0,
        !fs.contains_key(dest),
        is_dir_in(fs, dest.drop_last()),
        is_tree(fs),
    ensures
        apply_all(fs, copy_ops(src, dest, es, Depth::Levels(0))) == Some(fs.insert(dest, Node::Dir)),
        forall|q: Seq<Seq<char>>|
            #[trigger] fs.insert(dest, Node::Dir).contains_key(q) ==> !strictly_under(dest, q),
{
    lemma_depth_zero_ops(src, dest, es);
    lemma_dest_free(fs, dest);
    let ops = seq![OpModel::MakeDir(dest)];
    assert(ops[0] == OpModel::MakeDir(dest));
    assert(ops.drop_first() =~= Seq::<OpModel>::empty());
    assert(apply_op(fs, ops[0]) == Some(fs.insert(dest, Node::Dir)));
    assert(apply_all(fs.insert(dest, Node::Dir), ops.drop_first()) == Some(fs.insert(dest, Node::Dir)));
    assert forall|q: Seq<Seq<char>>| #[trigger] fs.insert(dest, Node::Dir).contains_key(q) implies !strictly_under(dest, q) by {
        if q != dest {
            assert(fs.contains_key(q));
        }
    }
}

/// A store whose target is a collection is refused as not allowed; one whose
/// parent is not an existing sandboxed directory is refused as a conflict.
/// Either way nothing is performed.
pub proof fn law_store_refusals(
    target: Option<Seq<Seq<char>>>,
    parent: Option<Seq<Seq<char>>>,
    dest: Option<Seq<Seq<char>>>,
    dest_parent: Option<Seq<Seq<char>>>,
    seen: Probe,
    parent_seen: Probe,
    body_empty: bool,
)
    requires
        target is Some,
    ensures
        seen.is_dir ==> decide_spec(Verb::Put, target, parent, dest, dest_parent, seen, parent_seen, body_empty)
            == Some(Status::MethodNotAllowed),
        !seen.is_dir && (parent is None || !parent_seen.is_dir) ==> decide_spec(
            Verb::Put,
            target,
            parent,
            dest,
            dest_parent,
            seen,
            parent_seen,
            body_empty,
        ) == Some(Status::Conflict),
{
}

/// Making a collection where an entry exists is a conflict; with an
/// unsandboxed parent it is not found, with a missing parent a conflict; with
/// a body it is refused.
pub proof fn law_make_collection_refusals(
    target: Option<Seq<Seq<char>>>,
    parent: Option<Seq<Seq<char>>>,
    dest: Option<Seq<Seq<char>>>,
    dest_parent: Option<Seq<Seq<char>>>,
    seen: Probe,
    parent_seen: Probe,
    body_empty: bool,
)
    requires
        target is Some,
    ensures
        parent is Some && seen.exists ==> decide_spec(
            Verb::MakeCollection,
            target,
            parent,
            dest,
            dest_parent,
            seen,
            parent_seen,
            body_empty,
        ) == Some(Status::Conflict),
        parent is None ==> decide_spec(
            Verb::MakeCollection,
            target,
            parent,
            dest,
            dest_parent,
            seen,
            parent_seen,
            body_empty,
        ) == Some(Status::NotFound),
        parent is Some && !parent_seen.is_dir ==> decide_spec(
            Verb::MakeCollection,
            target,
            parent,
            dest,
            dest_parent,
            seen,
            parent_seen,
            body_empty,
        ) == Some(Status::Conflict),
        !body_empty ==> decide_spec(
            Verb::MakeCollection,
            target,
            parent,
            dest,
            dest_parent,
            seen,
            parent_seen,
            body_empty,
        ) is Some,
{
}

/// What a copy may start from: each entry exists below `src` with its kind,
/// no path is listed twice, parents come first, the filesystem is a tree,
/// and the destination does not exist while its parent is a directory.
pub open spec fn copy_ready(
    fs: Fs,
    src: Seq<Seq<char>>,
    dest: Seq<Seq<char>>,
    es: Seq<(Seq<Seq<char>>, bool)>,
) -> bool {
    &&& forall|i: int|
        0 <= i < es.len() ==> fs.contains_key(src + #[trigger] es[i].0) && (fs[src
            + es[i].0] is Dir <==> es[i].1)
    &&& forall|i: int, j: int| 0 <= i < j < es.len() ==> es[i].0 != es[j].0
    &&& parents_first(es)
    &&& dest.len() > 0
    &&& is_dir_in(fs, dest.drop_last())
    &&& !fs.contains_key(dest)
    &&& is_tree(fs)
}

/// The node an entry's copy holds.
pub open spec fn copied_node(fs: Fs, src: Seq<Seq<char>>, e: (Seq<Seq<char>>, bool)) -> Node {
    if e.1 {
        Node::Dir
    } else {
        fs[src + e.0]
    }
}

/// `r` is `fs` with a copy of every listed entry added below `dest`.
pub open spec fn copied_into(
    r: Fs,
    fs: Fs,
    src: Seq<Seq<char>>,
    dest: Seq<Seq<char>>,
    es: Seq<(Seq<Seq<char>>, bool)>,
) -> bool {
    &&& forall|i: int|
        0 <= i < es.len() ==> r.contains_key(dest + #[trigger] es[i].0) && r[dest + es[i].0]
            == copied_node(fs, src, es[i])
    &&& forall|q: Seq<Seq<char>>|
        #[trigger] r.contains_key(q) ==> fs.contains_key(q) || exists|i: int|
            0 <= i < es.len() && q == dest + #[trigger] es[i].0
    &&& forall|q: Seq<Seq<char>>|
        #[trigger] fs.contains_key(q) ==> r.contains_key(q) && r[q] == fs[q]
}

proof fn lemma_join_drop_last(base: Seq<Seq<char>>, a: Seq<Seq<char>>)
    requires
        a.len() > 0,
    ensures
        (base + a).drop_last() == base + a.drop_last(),
{
    assert((base + a).drop_last() =~= base + a.drop_last());
}

proof fn lemma_apply_one(fs: Fs, op: OpModel)
    ensures
        apply_all(fs, seq![op]) == apply_op(fs, op),
{
    let ops = seq![op];
    assert(ops[0] == op);
    assert(ops.drop_first() =~= Seq::<OpModel>::empty());
    if let Some(next) = apply_op(fs, op) {
        assert(apply_all(next, Seq::<OpModel>::empty()) == Some(next));
    }
}

proof fn lemma_parents_first_prefix(es: Seq<(Seq<Seq<char>>, bool)>)
    requires
        parents_first(es),
        es.len() > 0,
    ensures
        parents_first(es.drop_last()),
{
    reveal(parents_first);
    let es2 = es.drop_last();
    assert forall|k: int| 0 < k < es2.len() implies (#[trigger] es2[k]).0.len() > 0 && exists|j: int|
        0 <= j < k && es2[j].1 && es2[j].0 == es2[k].0.drop_last() by {
        assert(es2[k] == es[k]);
        let j = choose|j: int| 0 <= j < k && es[j].1 && es[j].0 == es[k].0.drop_last();
        assert(es2[j] == es[j]);
    }
}

proof fn lemma_copy_ready_prefix(
    fs: Fs,
    src: Seq<Seq<char>>,
    dest: Seq<Seq<char>>,
    es: Seq<(Seq<Seq<char>>, bool)>,
)
    requires
        copy_ready(fs, src, dest, es),
        es.len() > 0,
    ensures
        copy_ready(fs, src, dest, es.drop_last()),
{
    lemma_parents_first_prefix(es);
    let es2 = es.drop_last();
    assert forall|i: int| 0 <= i < es2.len() implies fs.contains_key(src + #[trigger] es2[i].0) && (fs[src
        + es2[i].0] is Dir <==> es2[i].1) by {
        assert(es2[i] == es[i]);
    }
    assert forall|i: int, j: int| 0 <= i < j < es2.len() implies es2[i].0 != es2[j].0 by {
        assert(es2[i] == es[i] && es2[j] == es[j]);
    }
}

proof fn lemma_copy_target_free(
    fs: Fs,
    src: Seq<Seq<char>>,
    dest: Seq<Seq<char>>,
    es: Seq<(Seq<Seq<char>>, bool)>,
    r2: Fs,
)
    requires
        copy_ready(fs, src, dest, es),
        es.len() > 0,
        copied_into(r2, fs, src, dest, es.drop_last()),
    ensures
        !r2.contains_key(dest + es.last().0),
        is_dir_in(r2, (dest + es.last().0).drop_last()),
{
    lemma_dest_free(fs, dest);
    reveal(parents_first);
    let n = es.len() - 1;
    let es2 = es.drop_last();
    let last = es[n];
    let p = dest + last.0;
    lemma_join_under(dest, last.0);
    if r2.contains_key(p) {
        if !fs.contains_key(p) {
            let i = choose|i: int| 0 <= i < es2.len() && p == dest + #[trigger] es2[i].0;
            lemma_join_cancel(dest, es2[i].0, last.0);
            assert(es2[i] == es[i]);
        }
    }
    if n == 0 {
        assert(last.0 =~= Seq::<Seq<char>>::empty());
        assert(p =~= dest);
    } else {
        let j = choose|j: int| 0 <= j < n && es[j].1 && es[j].0 == es[n].0.drop_last();
        lemma_join_drop_last(dest, last.0);
        assert(es2[j] == es[j]);
        assert(r2[dest + es2[j].0] == copied_node(fs, src, es2[j]));
    }
}

proof fn lemma_copy_step_applies(
    fs: Fs,
    src: Seq<Seq<char>>,
    dest: Seq<Seq<char>>,
    es: Seq<(Seq<Seq<char>>, bool)>,
    r2: Fs,
)
    requires
        copy_ready(fs, src, dest, es),
        es.len() > 0,
        copied_into(r2, fs, src, dest, es.drop_last()),
    ensures
        apply_op(r2, copy_op(src, dest, es.last())) == Some(
            r2.insert(dest + es.last().0, copied_node(fs, src, es.last())),
        ),
{
    let n = es.len() - 1;
    lemma_copy_target_free(fs, src, dest, es, r2);
    lemma_join_under(dest, es[n].0);
    if !es[n].1 {
        assert(fs.contains_key(src + es[n].0));
        assert(r2.contains_key(src + es[n].0));
    }
}

proof fn lemma_copy_step(
    fs: Fs,
    src: Seq<Seq<char>>,
    dest: Seq<Seq<char>>,
    es: Seq<(Seq<Seq<char>>, bool)>,
    r2: Fs,
)
    requires
        copy_ready(fs, src, dest, es),
        es.len() > 0,
        copied_into(r2, fs, src, dest, es.drop_last()),
    ensures
        copied_into(r2.insert(dest + es.last().0, copied_node(fs, src, es.last())), fs, src, dest, es),
{
    lemma_dest_free(fs, dest);
    let n = es.len() - 1;
    let es2 = es.drop_last();
    let last = es[n];
    let p = dest + last.0;
    lemma_join_under(dest, last.0);
    let node = copied_node(fs, src, last);
    let r = r2.insert(p, node);
    assert forall|i: int| 0 <= i < es.len() implies r.contains_key(dest + #[trigger] es[i].0) && r[dest
        + es[i].0] == copied_node(fs, src, es[i]) by {
        if i < n {
            assert(es2[i] == es[i]);
            if dest + es[i].0 == p {
                lemma_join_cancel(dest, es[i].0, last.0);
            }
        }
    }
    assert forall|q: Seq<Seq<char>>| #[trigger] r.contains_key(q) implies fs.contains_key(q) || exists|i: int|
        0 <= i < es.len() && q == dest + #[trigger] es[i].0 by {
        if q != p && !fs.contains_key(q) {
            assert(r2.contains_key(q));
            let i = choose|i: int| 0 <= i < es2.len() && q == dest + #[trigger] es2[i].0;
            assert(es2[i] == es[i]);
        } else if q == p {
            assert(es[n] == last);
        }
    }
    assert forall|q: Seq<Seq<char>>| #[trigger] fs.contains_key(q) implies r.contains_key(q) && r[q] == fs[q] by {
        assert(r2.contains_key(q));
        if q == p {
            assert(!is_under(dest, q));
        }
    }
}

/// Copying a subtree to the whole depth succeeds, and afterwards each listed
/// entry has a copy below the destination at the same relative path: a
/// directory for a directory, the same bytes for a file. Nothing else is
/// added and nothing that existed changes.
pub proof fn law_copy_reproduces_subtree(
    fs: Fs,
    src: Seq<Seq<char>>,
    dest: Seq<Seq<char>>,
    es: Seq<(Seq<Seq<char>>, bool)>,
)
    requires
        copy_ready(fs, src, dest, es),
    ensures
        apply_all(fs, copy_ops(src, dest, es, Depth::Infinite)) is Some,
        copied_into(apply_all(fs, copy_ops(src, dest, es, Depth::Infinite))->0, fs, src, dest, es),
    decreases es.len(),
{
    if es.len() == 0 {
        assert(copy_ops(src, dest, es, Depth::Infinite) == Seq::<OpModel>::empty());
        let r = fs;
        assert forall|q: Seq<Seq<char>>| #[trigger] r.contains_key(q) implies fs.contains_key(q) || exists|i: int|
            0 <= i < es.len() && q == dest + #[trigger] es[i].0 by {}
        return;
    }
    let es2 = es.drop_last();
    lemma_copy_ready_prefix(fs, src, dest, es);
    law_copy_reproduces_subtree(fs, src, dest, es2);
    let ops2 = copy_ops(src, dest, es2, Depth::Infinite);
    let r2 = apply_all(fs, ops2)->0;
    let op = copy_op(src, dest, es.last());
    assert(copy_ops(src, dest, es, Depth::Infinite) == ops2 + seq![op]);
    lemma_apply_concat(fs, ops2, seq![op]);
    lemma_apply_one(r2, op);
    lemma_copy_step_applies(fs, src, dest, es, r2);
    lemma_copy_step(fs, src, dest, es, r2);
}

proof fn lemma_under_either(a: Seq<Seq<char>>, b: Seq<Seq<char>>, x: Seq<Seq<char>>)
    requires
        is_under(a, b + x),
    ensures
        is_under(a, b) || is_under(b, a),
{
    if a.len() <= b.len() {
        assert(b.subrange(0, a.len() as int) =~= (b + x).subrange(0, a.len() as int));
    } else {
        assert(a.subrange(0, b.len() as int) =~= (b + x).subrange(0, b.len() as int));
        assert((b + x).subrange(0, b.len() as int) =~= b);
    }
}

/// After a move of an existing, listed subtree to a free destination outside
/// it, each entry sits below the destination as it was below the source
/// before, and nothing is left at or below the source.
pub proof fn law_move_relocates_subtree(
    fs: Fs,
    src: Seq<Seq<char>>,
    dest: Seq<Seq<char>>,
    es: Seq<(Seq<Seq<char>>, bool)>,
)
    requires
        fs.contains_key(src),
        lists_subtree(fs, src, es),
        copy_ready(fs, src, dest, es),
        !is_under(src, dest),
    ensures
        apply_all(fs, copy_ops(src, dest, es, Depth::Infinite) + delete_ops(src, es)) is Some,
        ({
            let r = apply_all(fs, copy_ops(src, dest, es, Depth::Infinite) + delete_ops(src, es))->0;
            &&& forall|i: int|
                0 <= i < es.len() ==> r.contains_key(dest + #[trigger] es[i].0) && r[dest + es[i].0]
                    == copied_node(fs, src, es[i])
            &&& forall|q: Seq<Seq<char>>| is_under(src, q) ==> !#[trigger] r.contains_key(q)
        }),
{
    lemma_dest_free(fs, dest);
    law_move_is_copy_then_delete(fs, src, dest, es);
    law_copy_reproduces_subtree(fs, src, dest, es);
    let r1 = apply_all(fs, copy_ops(src, dest, es, Depth::Infinite))->0;
    assert(!is_under(dest, src));
    assert forall|i: int| 0 <= i < es.len() implies !is_under(src, dest + #[trigger] es[i].0) by {
        if is_under(src, dest + es[i].0) {
            lemma_under_either(src, dest, es[i].0);
        }
    }
    assert forall|i: int| 0 <= i < es.len() implies r1.contains_key(src + #[trigger] es[i].0) && (r1[src
        + es[i].0] is Dir <==> es[i].1) by {
        assert(fs.contains_key(src + es[i].0));
    }
    assert forall|q: Seq<Seq<char>>| #![trigger r1.contains_key(q)] r1.contains_key(q) && is_under(src, q) implies exists|i: int|
        0 <= i < es.len() && q == src + #[trigger] es[i].0 by {
        if !fs.contains_key(q) {
            let i = choose|i: int| 0 <= i < es.len() && q == dest + #[trigger] es[i].0;
            assert(!is_under(src, dest + es[i].0));
        } else {
            assert(fs.contains_key(q) && is_under(src, q));
        }
    }
    assert(lists_subtree(r1, src, es));
    law_delete_removes_subtree(r1, src, es);
    let r = apply_all(r1, delete_ops(src, es))->0;
    assert forall|i: int| 0 <= i < es.len() implies r.contains_key(dest + #[trigger] es[i].0) && r[dest
        + es[i].0] == copied_node(fs, src, es[i]) by {
        assert(r1.contains_key(dest + es[i].0));
        assert(!is_under(src, dest + es[i].0));
    }
}

/// A resolved request path has a sandboxed parent exactly when it is not
/// the root itself.
pub proof fn law_parent_missing_only_at_root(root: Seq<Seq<char>>, uri: Seq<char>)
    requires
        resolve(root, uri) is Some,
    ensures
        parent_of(root, resolve(root, uri)) is None <==> resolve(root, uri)->0 == root,
{
    let p = resolve(root, uri)->0;
    let cs = components(uri);
    if cs.len() == 0 {
        assert(p =~= root);
        lemma_root_has_no_parent(root);
    } else {
        let q = p.drop_last();
        assert(q =~= root + cs.drop_last());
        lemma_join_under(root, cs.drop_last());
        assert forall|i: int| 0 <= i < q.len() implies !is_dot_component(#[trigger] q[i]) by {
            assert(q[i] == p[i]);
        }
        assert(sandboxed(root, q));
        assert(p.len() != root.len());
    }
}

proof fn lemma_root_has_no_parent(root: Seq<Seq<char>>)
    ensures
        parent_of(root, Some(root)) is None,
{
}

/// The root itself is never deleted or moved, and nothing is copied or moved
/// onto it: such requests are answered as not found.
pub proof fn law_root_never_changed(
    root: Seq<Seq<char>>,
    other: Option<Seq<Seq<char>>>,
    other_parent: Option<Seq<Seq<char>>>,
    seen: Probe,
    parent_seen: Probe,
    body_empty: bool,
)
    ensures
        decide_spec(
            Verb::Delete,
            Some(root),
            parent_of(root, Some(root)),
            other,
            other_parent,
            seen,
            parent_seen,
            body_empty,
        ) == Some(Status::NotFound),
        decide_spec(
            Verb::Move,
            Some(root),
            parent_of(root, Some(root)),
            other,
            other_parent,
            seen,
            parent_seen,
            body_empty,
        ) == Some(Status::NotFound),
        decide_spec(
            Verb::Copy,
            other,
            other_parent,
            Some(root),
            parent_of(root, Some(root)),
            seen,
            parent_seen,
            body_empty,
        ) == Some(Status::NotFound),
        decide_spec(
            Verb::Move,
            other,
            other_parent,
            Some(root),
            parent_of(root, Some(root)),
            seen,
            parent_seen,
            body_empty,
        ) == Some(Status::NotFound),
{
    lemma_root_has_no_parent(root);
}

} // verus!
