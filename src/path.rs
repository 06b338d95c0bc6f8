use vstd::prelude::*;

verus! {

/// Reads `s` left to right, splitting at '/': the non-empty components
/// finished so far, and the component still being read.
pub open spec fn split_acc(s: Seq<char>) -> (Seq<Seq<char>>, Seq<char>)
    decreases s.len(),
{
    if s.len() == 0 {
        (Seq::empty(), Seq::empty())
    } else {
        let prev = split_acc(s.drop_last());
        if s.last() == '/' {
            (if prev.1.len() > 0 { prev.0.push(prev.1) } else { prev.0 }, Seq::empty())
        } else {
            (prev.0, prev.1.push(s.last()))
        }
    }
}

/// The non-empty '/'-separated components of `s`. Leading, trailing and
/// repeated separators contribute nothing.
pub open spec fn components(s: Seq<char>) -> Seq<Seq<char>> {
    let acc = split_acc(s);
    if acc.1.len() > 0 {
        acc.0.push(acc.1)
    } else {
        acc.0
    }
}

/// The texts of a list of components.
pub open spec fn texts(v: Seq<String>) -> Seq<Seq<char>> {
    v.map_values(|c: String| c@)
}

/// A current-directory or parent-directory component.
pub open spec fn is_dot_component(c: Seq<char>) -> bool {
    c =~= seq!['.'] || c =~= seq!['.', '.']
}

/// `p` starts with all components of `root`.
pub open spec fn is_under(root: Seq<Seq<char>>, p: Seq<Seq<char>>) -> bool {
    root.len() <= p.len() && p.subrange(0, root.len() as int) =~= root
}

/// The sandbox rule: no traversal component anywhere, and `root` is a prefix.
pub open spec fn sandboxed(root: Seq<Seq<char>>, p: Seq<Seq<char>>) -> bool {
    &&& forall|i: int| 0 <= i < p.len() ==> !is_dot_component(#[trigger] p[i])
    &&& is_under(root, p)
}

/// What a request path resolves to under `root`, when it is sandboxed.
pub open spec fn resolve(root: Seq<Seq<char>>, uri: Seq<char>) -> Option<Seq<Seq<char>>> {
    let p = root + components(uri);
    if sandboxed(root, p) {
        Some(p)
    } else {
        None
    }
}

/// An absolute filesystem path, held as its components from the top.
pub struct DavPath {
    pub comps: Vec<String>,
}

impl View for DavPath {
    type V = Seq<Seq<char>>;

    open spec fn view(&self) -> Seq<Seq<char>> {
        texts(self.comps@)
    }
}

/// Copies each component of `v`.
pub fn clone_components(v: &Vec<String>) -> (r: Vec<String>)
    ensures
        texts(r@) == texts(v@),
{
    let mut r: Vec<String> = Vec::new();
    let mut i: usize = 0;
    while i < v.len()
        invariant
            i <= v.len(),
            texts(r@) =~= texts(v@).subrange(0, i as int),
        decreases v.len() - i,
    {
        let ghost before = r@;
        r.push(v[i].clone());
        assert(texts(r@) =~= texts(before).push(v@[i as int]@));
        i = i + 1;
    }
    assert(texts(v@).subrange(0, v.len() as int) =~= texts(v@));
    r
}

/// Splits `s` into its non-empty '/'-separated components.
pub fn split_components(s: &str) -> (r: Vec<String>)
    ensures
        texts(r@) == components(s@),
{
    let n = s.unicode_len();
    let mut out: Vec<String> = Vec::new();
    let mut start: usize = 0;
    let mut i: usize = 0;
    while i < n
        invariant
            n == s@.len(),
            start <= i <= n,
            split_acc(s@.subrange(0, i as int)).0 == texts(out@),
            split_acc(s@.subrange(0, i as int)).1 == s@.subrange(start as int, i as int),
        decreases n - i,
    {
        let c = s.get_char(i);
        assert(s@.subrange(0, i + 1).drop_last() =~= s@.subrange(0, i as int));
        if c == '/' {
            if start < i {
                let part = String::from_str(s.substring_char(start, i));
                let ghost before = out@;
                out.push(part);
                assert(texts(out@) =~= texts(before).push(part@));
            }
            start = i + 1;
            assert(s@.subrange(start as int, i + 1) =~= Seq::<char>::empty());
        } else {
            assert(s@.subrange(start as int, i + 1) =~= s@.subrange(start as int, i as int).push(c));
        }
        i = i + 1;
    }
    assert(s@.subrange(0, n as int) =~= s@);
    if start < n {
        let part = String::from_str(s.substring_char(start, n));
        let ghost before = out@;
        out.push(part);
        assert(texts(out@) =~= texts(before).push(part@));
    }
    out
}

/// Whether `c` is "." or "..".
pub fn is_dot_text(c: &str) -> (r: bool)
    ensures
        r == is_dot_component(c@),
{
    let n = c.unicode_len();
    if n == 1 {
        c.get_char(0) == '.'
    } else if n == 2 {
        c.get_char(0) == '.' && c.get_char(1) == '.'
    } else {
        false
    }
}

impl DavPath {
    /// The path whose components are those of `s`.
    pub fn parse(s: &str) -> (r: DavPath)
        ensures
            r@ == components(s@),
    {
        DavPath { comps: split_components(s) }
    }

    /// True when `self` holds all components of `prefix` at its start.
    pub fn starts_with(&self, prefix: &DavPath) -> (r: bool)
        ensures
            r == is_under(prefix@, self@),
    {
        if prefix.comps.len() > self.comps.len() {
            return false;
        }
        let mut i: usize = 0;
        while i < prefix.comps.len()
            invariant
                prefix@.len() <= self@.len(),
                i <= prefix@.len(),
                forall|k: int| 0 <= k < i ==> self@[k] == prefix@[k],
            decreases prefix.comps.len() - i,
        {
            if self.comps[i] != prefix.comps[i] {
                assert(self@.subrange(0, prefix@.len() as int)[i as int] != prefix@[i as int]);
                return false;
            }
            i = i + 1;
        }
        assert(self@.subrange(0, prefix@.len() as int) =~= prefix@);
        true
    }

    /// A copy of this path.
    pub fn duplicate(&self) -> (r: DavPath)
        ensures
            r@ == self@,
    {
        DavPath { comps: clone_components(&self.comps) }
    }

    /// This path followed by all components of `rest`.
    pub fn join(&self, rest: &Vec<String>) -> (r: DavPath)
        ensures
            r@ == self@ + texts(rest@),
    {
        let mut comps = clone_components(&self.comps);
        let mut i: usize = 0;
        while i < rest.len()
            invariant
                i <= rest.len(),
                texts(comps@) =~= self@ + texts(rest@).subrange(0, i as int),
            decreases rest.len() - i,
        {
            let ghost before = comps@;
            comps.push(rest[i].clone());
            assert(texts(comps@) =~= texts(before).push(rest@[i as int]@));
            i = i + 1;
        }
        assert(texts(rest@).subrange(0, rest.len() as int) =~= texts(rest@));
        DavPath { comps }
    }

    /// The containing directory, or `None` for the top.
    pub fn parent(&self) -> (r: Option<DavPath>)
        ensures
            self@.len() == 0 ==> r is None,
            self@.len() > 0 ==> r is Some && r->0@ == self@.drop_last(),
    {
        let n = self.comps.len();
        if n == 0 {
            return None;
        }
        let mut comps: Vec<String> = Vec::new();
        let mut i: usize = 0;
        while i < n - 1
            invariant
                n == self@.len(),
                n > 0,
                i <= n - 1,
                texts(comps@) =~= self@.subrange(0, i as int),
            decreases n - 1 - i,
        {
            let ghost before = comps@;
            comps.push(self.comps[i].clone());
            assert(texts(comps@) =~= texts(before).push(self@[i as int]));
            i = i + 1;
        }
        Some(DavPath { comps })
    }
}

/// Accepts `p` only when none of its components is "." or ".." and it lies
/// under `root`.
pub fn is_valid_path(root: &DavPath, p: &DavPath) -> (r: bool)
    ensures
        r == sandboxed(root@, p@),
{
    let mut i: usize = 0;
    while i < p.comps.len()
        invariant
            i <= p@.len(),
            forall|k: int| 0 <= k < i ==> !is_dot_component(#[trigger] p@[k]),
        decreases p.comps.len() - i,
    {
        if is_dot_text(p.comps[i].as_str()) {
            assert(is_dot_component(p@[i as int]));
            return false;
        }
        i = i + 1;
    }
    p.starts_with(root)
}

/// Resolves a request path under `root`: separators at either end are
/// dropped, the rest is joined onto `root`, and the result is returned only
/// when it passes the sandbox rule.
pub fn path_from_uri(root: &DavPath, uri: &str) -> (r: Option<DavPath>)
    ensures
        r matches Some(p) ==> resolve(root@, uri@) == Some(p@),
        r is None ==> resolve(root@, uri@) is None,
{
    let rest = split_components(uri);
    let p = root.join(&rest);
    if is_valid_path(root, &p) {
        Some(p)
    } else {
        None
    }
}

/// The containing directory of `p` when it passes the sandbox rule.
/// Whether it exists as a directory is for the caller to observe.
pub fn parent_from_path(root: &DavPath, p: &DavPath) -> (r: Option<DavPath>)
    ensures
        r is Some <==> p@.len() > 0 && sandboxed(root@, p@.drop_last()),
        r matches Some(q) ==> q@ == p@.drop_last(),
{
    match p.parent() {
        None => None,
        Some(q) => {
            if is_valid_path(root, &q) {
                Some(q)
            } else {
                None
            }
        },
    }
}

} // verus!
