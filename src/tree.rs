use vstd::prelude::*;

use crate::headers::Depth;
use crate::path::{clone_components, is_under, texts, DavPath};

verus! {

/// A node of the filesystem model.
pub enum Node {
    File(Seq<u8>),
    Dir,
}

/// The filesystem model: each existing path mapped to its node.
pub type Fs = Map<Seq<Seq<char>>, Node>;

/// One filesystem mutation, over absolute paths.
pub enum FsOp {
    MakeDir(DavPath),
    CopyFile(DavPath, DavPath),
    RemoveFile(DavPath),
    RemoveDir(DavPath),
}

/// A mutation as the model reads it.
pub enum OpModel {
    MakeDir(Seq<Seq<char>>),
    CopyFile(Seq<Seq<char>>, Seq<Seq<char>>),
    RemoveFile(Seq<Seq<char>>),
    RemoveDir(Seq<Seq<char>>),
}

impl View for FsOp {
    type V = OpModel;

    open spec fn view(&self) -> OpModel {
        match self {
            FsOp::MakeDir(p) => OpModel::MakeDir(p@),
            FsOp::CopyFile(s, d) => OpModel::CopyFile(s@, d@),
            FsOp::RemoveFile(p) => OpModel::RemoveFile(p@),
            FsOp::RemoveDir(p) => OpModel::RemoveDir(p@),
        }
    }
}

pub open spec fn op_models(v: Seq<FsOp>) -> Seq<OpModel> {
    v.map_values(|o: FsOp| o@)
}

/// `q` lies strictly below `p`.
pub open spec fn strictly_under(p: Seq<Seq<char>>, q: Seq<Seq<char>>) -> bool {
    is_under(p, q) && q.len() > p.len()
}

/// The directory `p` exists in `fs`.
pub open spec fn is_dir_in(fs: Fs, p: Seq<Seq<char>>) -> bool {
    fs.contains_key(p) && fs[p] is Dir
}

/// The effect of one mutation; `None` where the filesystem refuses it.
pub open spec fn apply_op(fs: Fs, op: OpModel) -> Option<Fs> {
    match op {
        OpModel::MakeDir(p) => if p.len() > 0 && !fs.contains_key(p) && is_dir_in(fs, p.drop_last()) {
            Some(fs.insert(p, Node::Dir))
        } else {
            None
        },
        OpModel::CopyFile(s, d) => if d.len() > 0 && fs.contains_key(s) && fs[s] is File
            && !is_dir_in(fs, d) && is_dir_in(fs, d.drop_last()) {
            Some(fs.insert(d, fs[s]))
        } else {
            None
        },
        OpModel::RemoveFile(p) => if fs.contains_key(p) && fs[p] is File {
            Some(fs.remove(p))
        } else {
            None
        },
        OpModel::RemoveDir(p) => if is_dir_in(fs, p) && (forall|q: Seq<Seq<char>>|
            #![trigger fs.contains_key(q)]
            fs.contains_key(q) ==> !strictly_under(p, q)) {
            Some(fs.remove(p))
        } else {
            None
        },
    }
}

/// The effect of a list of mutations run in order, stopping at the first
/// that fails.
pub open spec fn apply_all(fs: Fs, ops: Seq<OpModel>) -> Option<Fs>
    decreases ops.len(),
{
    if ops.len() == 0 {
        Some(fs)
    } else {
        match apply_op(fs, ops[0]) {
            Some(next) => apply_all(next, ops.drop_first()),
            None => None,
        }
    }
}

/// One entry of a scanned subtree: its path relative to the top of the
/// subtree, and whether it is a directory.
pub struct Entry {
    pub rel: Vec<String>,
    pub is_dir: bool,
}

/// An entry as the model reads it.
pub open spec fn entry_model(e: Entry) -> (Seq<Seq<char>>, bool) {
    (texts(e.rel@), e.is_dir)
}

pub open spec fn entry_models(v: Seq<Entry>) -> Seq<(Seq<Seq<char>>, bool)> {
    v.map_values(|e: Entry| entry_model(e))
}

/// The removal of one scanned entry below `base`.
pub open spec fn remove_op(base: Seq<Seq<char>>, e: (Seq<Seq<char>>, bool)) -> OpModel {
    if e.1 {
        OpModel::RemoveDir(base + e.0)
    } else {
        OpModel::RemoveFile(base + e.0)
    }
}

/// The removals of scanned entries, last entry first.
pub open spec fn delete_ops(base: Seq<Seq<char>>, es: Seq<(Seq<Seq<char>>, bool)>) -> Seq<OpModel>
    decreases es.len(),
{
    if es.len() == 0 {
        Seq::empty()
    } else {
        seq![remove_op(base, es.last())] + delete_ops(base, es.drop_last())
    }
}

/// An entry `len` levels below the top is copied at `depth`.
pub open spec fn within(depth: Depth, len: nat) -> bool {
    match depth {
        Depth::Infinite => true,
        Depth::Levels(d) => len <= d,
    }
}

/// The copy of one scanned entry from below `src` to below `dest`.
pub open spec fn copy_op(src: Seq<Seq<char>>, dest: Seq<Seq<char>>, e: (Seq<Seq<char>>, bool)) -> OpModel {
    if e.1 {
        OpModel::MakeDir(dest + e.0)
    } else {
        OpModel::CopyFile(src + e.0, dest + e.0)
    }
}

/// The copies of scanned entries in scan order, leaving out those deeper
/// than `depth`.
pub open spec fn copy_ops(
    src: Seq<Seq<char>>,
    dest: Seq<Seq<char>>,
    es: Seq<(Seq<Seq<char>>, bool)>,
    depth: Depth,
) -> Seq<OpModel>
    decreases es.len(),
{
    if es.len() == 0 {
        Seq::empty()
    } else {
        copy_ops(src, dest, es.drop_last(), depth) + if within(depth, es.last().0.len()) {
            seq![copy_op(src, dest, es.last())]
        } else {
            Seq::empty()
        }
    }
}

/// The removal of one scanned entry below `base`.
pub fn removal(base: &DavPath, e: &Entry) -> (r: FsOp)
    ensures
        r@ == remove_op(base@, entry_model(*e)),
{
    if e.is_dir {
        FsOp::RemoveDir(base.join(&e.rel))
    } else {
        FsOp::RemoveFile(base.join(&e.rel))
    }
}

/// The mutations that delete the scanned subtree at `base`: every entry,
/// deepest last in scan order first, so that each directory is emptied before
/// it is removed.
pub fn delete_plan(base: &DavPath, es: &Vec<Entry>) -> (r: Vec<FsOp>)
    ensures
        op_models(r@) == delete_ops(base@, entry_models(es@)),
{
    let ghost ev = entry_models(es@);
    let mut out: Vec<FsOp> = Vec::new();
    let mut i: usize = es.len();
    assert(ev.subrange(0, i as int) =~= ev);
    while i > 0
        invariant
            i <= es.len(),
            ev == entry_models(es@),
            op_models(out@) + delete_ops(base@, ev.subrange(0, i as int)) == delete_ops(base@, ev),
        decreases i,
    {
        let op = removal(base, &es[i - 1]);
        let ghost before = out@;
        out.push(op);
        proof {
            let pre = ev.subrange(0, i as int);
            assert(pre.drop_last() =~= ev.subrange(0, i - 1));
            assert(op_models(out@) =~= op_models(before).push(op@));
            assert(op_models(before) + delete_ops(base@, pre) =~= op_models(out@)
                + delete_ops(base@, ev.subrange(0, i - 1)));
        }
        i = i - 1;
    }
    assert(delete_ops(base@, ev.subrange(0, 0)) =~= Seq::<OpModel>::empty());
    assert(op_models(out@) + Seq::<OpModel>::empty() =~= op_models(out@));
    out
}

/// Whether an entry with `len` components below the top is copied at `depth`.
pub fn is_within(depth: Depth, len: usize) -> (r: bool)
    ensures
        r == within(depth, len as nat),
{
    match depth {
        Depth::Infinite => true,
        Depth::Levels(d) => len as u64 <= d as u64,
    }
}

/// The copy of one scanned entry.
pub fn copying(src: &DavPath, dest: &DavPath, e: &Entry) -> (r: FsOp)
    ensures
        r@ == copy_op(src@, dest@, entry_model(*e)),
{
    if e.is_dir {
        FsOp::MakeDir(dest.join(&e.rel))
    } else {
        FsOp::CopyFile(src.join(&e.rel), dest.join(&e.rel))
    }
}

/// The mutations that copy the scanned subtree at `src` to `dest`, in scan
/// order: a directory is made before what it holds. `depth` counts the
/// levels copied below the top; the top itself is always copied.
pub fn copy_plan(src: &DavPath, dest: &DavPath, es: &Vec<Entry>, depth: Depth) -> (r: Vec<FsOp>)
    ensures
        op_models(r@) == copy_ops(src@, dest@, entry_models(es@), depth),
{
    let ghost ev = entry_models(es@);
    let mut out: Vec<FsOp> = Vec::new();
    let mut i: usize = 0;
    while i < es.len()
        invariant
            i <= es.len(),
            ev == entry_models(es@),
            op_models(out@) == copy_ops(src@, dest@, ev.subrange(0, i as int), depth),
        decreases es.len() - i,
    {
        let ghost before = out@;
        proof {
            assert(ev.subrange(0, i + 1).drop_last() =~= ev.subrange(0, i as int));
        }
        if is_within(depth, es[i].rel.len()) {
            let op = copying(src, dest, &es[i]);
            out.push(op);
            assert(op_models(out@) =~= op_models(before) + seq![op@]);
        } else {
            assert(op_models(out@) =~= op_models(before) + Seq::<OpModel>::empty());
        }
        i = i + 1;
    }
    assert(ev.subrange(0, es.len() as int) =~= ev);
    out
}

/// The mutations of a move: the whole subtree is copied, then the source is
/// deleted.
pub fn move_plan(src: &DavPath, dest: &DavPath, es: &Vec<Entry>) -> (r: Vec<FsOp>)
    ensures
        op_models(r@) == copy_ops(src@, dest@, entry_models(es@), Depth::Infinite) + delete_ops(
            src@,
            entry_models(es@),
        ),
{
    let mut out = copy_plan(src, dest, es, Depth::Infinite);
    let mut rest = delete_plan(src, es);
    let ghost a = out@;
    let ghost b = rest@;
    out.append(&mut rest);
    assert(op_models(out@) =~= op_models(a) + op_models(b));
    out
}

/// Every entry but the first lies one level below an earlier directory
/// entry, and the first is the top.
#[verifier::opaque]
pub open spec fn parents_first(es: Seq<(Seq<Seq<char>>, bool)>) -> bool {
    &&& es.len() > 0 ==> es[0].0.len() == 0
    &&& forall|k: int|
        0 < k < es.len() ==> (#[trigger] es[k]).0.len() > 0 && exists|j: int|
            0 <= j < k && es[j].1 && es[j].0 == es[k].0.drop_last()
}

/// A breadth-first scan of a subtree, driven by whoever can read the
/// directories: it names the next directory to list and takes its listing.
/// Entries are kept in the order found, so no entry comes after a deeper one.
pub struct TreeScan {
    pub entries: Vec<Entry>,
    pub cursor: usize,
}

impl TreeScan {
    /// The first entry is the top; the cursor has not passed the end; each
    /// other entry lies one level below an earlier directory entry; no entry
    /// comes after a deeper one, and none is more than one level below the
    /// entry at the cursor.
    pub open spec fn wf(&self) -> bool {
        let es = entry_models(self.entries@);
        &&& es.len() > 0
        &&& es[0].0.len() == 0
        &&& forall|i: int| 0 < i < es.len() ==> (#[trigger] es[i]).0.len() > 0
        &&& self.cursor <= es.len()
        &&& parents_first(es)
        &&& forall|i: int, j: int| 0 <= i < j < es.len() ==> es[i].0.len() <= es[j].0.len()
        &&& self.cursor < es.len() ==> forall|i: int|
            0 <= i < es.len() ==> (#[trigger] es[i]).0.len() <= es[self.cursor as int].0.len() + 1
    }

    /// A scan that holds the top entry alone.
    pub fn new(top_is_dir: bool) -> (r: TreeScan)
        ensures
            r.wf(),
            r.cursor == 0,
            entry_models(r.entries@) == seq![(Seq::<Seq<char>>::empty(), top_is_dir)],
    {
        let top = Entry { rel: Vec::new(), is_dir: top_is_dir };
        assert(texts(top.rel@) =~= Seq::<Seq<char>>::empty());
        let mut entries: Vec<Entry> = Vec::new();
        entries.push(top);
        assert(entry_models(entries@) =~= seq![(Seq::<Seq<char>>::empty(), top_is_dir)]);
        proof {
            reveal(parents_first);
        }
        TreeScan { entries, cursor: 0 }
    }

    /// Moves the cursor past files to the next directory still to be listed
    /// and returns its path relative to the top, or `None` once every
    /// directory has been listed.
    pub fn next_dir(&mut self) -> (r: Option<Vec<String>>)
        requires
            old(self).wf(),
        ensures
            final(self).wf(),
            final(self).entries@ == old(self).entries@,
            old(self).cursor <= final(self).cursor,
            forall|i: int|
                old(self).cursor <= i < final(self).cursor ==> !(#[trigger] final(self).entries@[i]).is_dir,
            r is None ==> final(self).cursor == final(self).entries@.len(),
            r matches Some(rel) ==> final(self).cursor < final(self).entries@.len()
                && final(self).entries@[final(self).cursor as int].is_dir
                && texts(rel@) == texts(final(self).entries@[final(self).cursor as int].rel@),
    {
        let ghost start = self.cursor;
        while self.cursor < self.entries.len() && !self.entries[self.cursor].is_dir
            invariant
                self.wf(),
                self.entries@ == old(self).entries@,
                start == old(self).cursor,
                start <= self.cursor,
                forall|i: int| start <= i < self.cursor ==> !(#[trigger] self.entries@[i]).is_dir,
            decreases self.entries.len() - self.cursor,
        {
            let ghost c = self.cursor as int;
            let ghost es = entry_models(self.entries@);
            self.cursor = self.cursor + 1;
            proof {
                if self.cursor < es.len() {
                    assert(es[c].0.len() <= es[c + 1].0.len());
                    assert forall|i: int| 0 <= i < es.len() implies (#[trigger] es[i]).0.len()
                        <= es[self.cursor as int].0.len() + 1 by {
                        assert(es[i].0.len() <= es[c].0.len() + 1);
                    }
                }
            }
        }
        if self.cursor < self.entries.len() {
            Some(clone_components(&self.entries[self.cursor].rel))
        } else {
            None
        }
    }

    /// Records the listing of the directory at the cursor, as names with
    /// whether each is a directory, and moves the cursor past it.
    pub fn add_listing(&mut self, children: &Vec<(String, bool)>)
        requires
            old(self).wf(),
            old(self).cursor < old(self).entries@.len(),
            old(self).entries@[old(self).cursor as int].is_dir,
        ensures
            final(self).wf(),
            final(self).cursor == old(self).cursor + 1,
            entry_models(final(self).entries@) == entry_models(old(self).entries@) + children@.map_values(
                |c: (String, bool)|
                    (texts(old(self).entries@[old(self).cursor as int].rel@).push(c.0@), c.1),
            ),
    {
        let ghost es0 = entry_models(self.entries@);
        let ghost c = self.cursor as int;
        let ghost base = es0[c].0;
        let ghost added = children@.map_values(|ch: (String, bool)| (base.push(ch.0@), ch.1));
        let n0 = self.entries.len();
        let mut k: usize = 0;
        while k < children.len()
            invariant
                n0 == es0.len(),
                self.cursor as int == c,
                0 <= c < es0.len(),
                es0 == entry_models(old(self).entries@),
                base == es0[c].0,
                added == children@.map_values(|ch: (String, bool)| (base.push(ch.0@), ch.1)),
                k <= children.len(),
                entry_models(self.entries@) =~= es0 + added.subrange(0, k as int),
                old(self).wf(),
                self.entries@.len() == es0.len() + k,
                self.entries@[c] == old(self).entries@[c],
                base == texts(old(self).entries@[c].rel@),
            decreases children.len() - k,
        {
            let ghost before = entry_models(self.entries@);
            let mut comps = clone_components(&self.entries[self.cursor].rel);
            comps.push(children[k].0.clone());
            assert(texts(comps@) =~= base.push(children@[k as int].0@));
            self.entries.push(Entry { rel: comps, is_dir: children[k].1 });
            assert(entry_models(self.entries@) =~= before.push(added[k as int]));
            k = k + 1;
        }
        self.cursor = self.cursor + 1;
        proof {
            let es = entry_models(self.entries@);
            assert(added.subrange(0, children.len() as int) =~= added);
            reveal(parents_first);
            assert(es0[c].1);
            assert forall|k: int| 0 < k < es.len() implies (#[trigger] es[k]).0.len() > 0 && exists|j: int|
                0 <= j < k && es[j].1 && es[j].0 == es[k].0.drop_last() by {
                if k < es0.len() {
                    assert(es[k] == es0[k]);
                    let j = choose|j: int| 0 <= j < k && es0[j].1 && es0[j].0 == es0[k].0.drop_last();
                    assert(es[j] == es0[j]);
                } else {
                    assert(es[k] == added[k - es0.len()]);
                    assert(es[c] == es0[c]);
                    assert(es[k].0.drop_last() =~= base);
                }
            }
            assert forall|i: int| 0 <= i < es.len() implies (#[trigger] es[i]).0.len() <= base.len() + 1 by {
                if i < es0.len() {
                    assert(es[i] == es0[i]);
                } else {
                    assert(es[i] == added[i - es0.len()]);
                }
            }
            assert forall|i: int| 0 < i < es.len() implies (#[trigger] es[i]).0.len() > 0 by {
                if i < es0.len() {
                    assert(es[i] == es0[i]);
                } else {
                    assert(es[i] == added[i - es0.len()]);
                }
            }
            assert forall|i: int, j: int| 0 <= i < j < es.len() implies es[i].0.len() <= es[j].0.len() by {
                if j < es0.len() {
                    assert(es[i] == es0[i] && es[j] == es0[j]);
                } else {
                    assert(es[j] == added[j - es0.len()]);
                    if i < es0.len() {
                        assert(es[i] == es0[i]);
                    } else {
                        assert(es[i] == added[i - es0.len()]);
                    }
                }
            }
            if self.cursor < es.len() {
                assert(es[c] == es0[c]);
                assert(es[c].0.len() <= es[c + 1].0.len());
            }
        }
    }
}

} // verus!
