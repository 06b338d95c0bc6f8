use vstd::prelude::*;

use crate::headers::{depth_from_header, depth_of, same_text, Depth};
use crate::path::{parent_from_path, path_from_uri, resolve, sandboxed, DavPath};

verus! {

/// The largest body that a store accepts, in bytes.
pub const MAX_FILE_SIZE: u64 = 102400;

/// The statuses a request can end with.
#[derive(PartialEq, Eq, Structural, Clone, Copy, Debug)]
pub enum Status {
    Success,
    NoContent,
    NotFound,
    MethodNotAllowed,
    Conflict,
}

pub open spec fn status_code(s: Status) -> u16 {
    match s {
        Status::Success => 200,
        Status::NoContent => 204,
        Status::NotFound => 404,
        Status::MethodNotAllowed => 405,
        Status::Conflict => 409,
    }
}

impl Status {
    /// The numeric HTTP status.
    pub fn code(&self) -> (r: u16)
        ensures
            r == status_code(*self),
    {
        match self {
            Status::Success => 200,
            Status::NoContent => 204,
            Status::NotFound => 404,
            Status::MethodNotAllowed => 405,
            Status::Conflict => 409,
        }
    }
}

/// The request methods this server handles; all others are `Unsupported`.
#[derive(PartialEq, Eq, Structural, Clone, Copy, Debug)]
pub enum Verb {
    Put,
    Delete,
    MakeCollection,
    Copy,
    Move,
    Unsupported,
}

/// The verb that a method token names; tokens match case-sensitively.
pub open spec fn verb_of(m: Seq<char>) -> Verb {
    if m == seq!['P', 'U', 'T'] {
        Verb::Put
    } else if m == seq!['D', 'E', 'L', 'E', 'T', 'E'] {
        Verb::Delete
    } else if m == seq!['M', 'K', 'C', 'O', 'L'] {
        Verb::MakeCollection
    } else if m == seq!['C', 'O', 'P', 'Y'] {
        Verb::Copy
    } else if m == seq!['M', 'O', 'V', 'E'] {
        Verb::Move
    } else {
        Verb::Unsupported
    }
}

/// Routes a method token to its verb.
pub fn verb_from_method(m: &str) -> (r: Verb)
    ensures
        r == verb_of(m@),
{
    proof {
        reveal_strlit("PUT");
        reveal_strlit("DELETE");
        reveal_strlit("MKCOL");
        reveal_strlit("COPY");
        reveal_strlit("MOVE");
    }
    assert("PUT"@ =~= seq!['P', 'U', 'T']);
    assert("DELETE"@ =~= seq!['D', 'E', 'L', 'E', 'T', 'E']);
    assert("MKCOL"@ =~= seq!['M', 'K', 'C', 'O', 'L']);
    assert("COPY"@ =~= seq!['C', 'O', 'P', 'Y']);
    assert("MOVE"@ =~= seq!['M', 'O', 'V', 'E']);
    if same_text(m, "PUT") {
        Verb::Put
    } else if same_text(m, "DELETE") {
        Verb::Delete
    } else if same_text(m, "MKCOL") {
        Verb::MakeCollection
    } else if same_text(m, "COPY") {
        Verb::Copy
    } else if same_text(m, "MOVE") {
        Verb::Move
    } else {
        Verb::Unsupported
    }
}

/// What was seen of an entry at the moment it was looked at.
#[derive(PartialEq, Eq, Structural, Clone, Copy, Debug)]
pub struct Probe {
    pub exists: bool,
    pub is_dir: bool,
}

/// A request with its paths resolved under the root.
pub struct Resolved {
    pub verb: Verb,
    pub target: Option<DavPath>,
    pub parent: Option<DavPath>,
    pub dest: Option<DavPath>,
    pub dest_parent: Option<DavPath>,
    pub depth: Depth,
}

pub open spec fn opt_view(p: Option<DavPath>) -> Option<Seq<Seq<char>>> {
    match p {
        Some(q) => Some(q@),
        None => None,
    }
}

pub open spec fn opt_text(h: Option<&str>) -> Option<Seq<char>> {
    match h {
        Some(s) => Some(s@),
        None => None,
    }
}

/// The sandboxed parent of a resolved path, if it has one.
pub open spec fn parent_of(root: Seq<Seq<char>>, p: Option<Seq<Seq<char>>>) -> Option<Seq<Seq<char>>> {
    match p {
        Some(q) => if q.len() > 0 && sandboxed(root, q.drop_last()) {
            Some(q.drop_last())
        } else {
            None
        },
        None => None,
    }
}

/// Resolves everything a request names: its verb, its path and that path's
/// parent, the Destination header as a path and that path's parent, and the
/// Depth header.
pub fn resolve_request(
    root: &DavPath,
    method: &str,
    uri: &str,
    destination: Option<&str>,
    depth: Option<&str>,
) -> (r: Resolved)
    ensures
        r.verb == verb_of(method@),
        opt_view(r.target) == resolve(root@, uri@),
        opt_view(r.parent) == parent_of(root@, resolve(root@, uri@)),
        opt_view(r.dest) == match destination {
            Some(d) => resolve(root@, d@),
            None => None,
        },
        opt_view(r.dest_parent) == parent_of(root@, opt_view(r.dest)),
        r.depth == depth_of(opt_text(depth)),
{
    let verb = verb_from_method(method);
    let target = path_from_uri(root, uri);
    let parent = match &target {
        Some(p) => parent_from_path(root, p),
        None => None,
    };
    let dest = match destination {
        Some(d) => path_from_uri(root, d),
        None => None,
    };
    let dest_parent = match &dest {
        Some(p) => parent_from_path(root, p),
        None => None,
    };
    let depth = depth_from_header(depth);
    Resolved { verb, target, parent, dest, dest_parent, depth }
}

/// A mutation that a request asks for, once its checks have passed.
pub enum Action {
    Store(DavPath),
    MakeCollection(DavPath),
    Delete(DavPath),
    Copy(DavPath, DavPath, Depth),
    Move(DavPath, DavPath),
}

/// Either an answer without touching the filesystem, or a mutation to run.
pub enum Decision {
    Respond(Status),
    Perform(Action),
}

/// The checks of a request, in order, before anything is changed.
/// `parent` and `dest_parent` are the sandboxed parents of the request's path
/// and of its destination: for a resolved path, `None` means the path is the
/// root itself, which is never deleted, moved, or copied onto. `seen` and
/// `parent_seen` are what was seen at the request's path and at its parent;
/// `body_empty` tells whether the request carried no body.
pub open spec fn decide_spec(
    verb: Verb,
    target: Option<Seq<Seq<char>>>,
    parent: Option<Seq<Seq<char>>>,
    dest: Option<Seq<Seq<char>>>,
    dest_parent: Option<Seq<Seq<char>>>,
    seen: Probe,
    parent_seen: Probe,
    body_empty: bool,
) -> Option<Status> {
    match verb {
        Verb::Put => if target is None {
            Some(Status::NotFound)
        } else if seen.is_dir {
            Some(Status::MethodNotAllowed)
        } else if parent is None || !parent_seen.is_dir {
            Some(Status::Conflict)
        } else {
            None
        },
        Verb::Delete => if target is None || parent is None || !seen.exists {
            Some(Status::NotFound)
        } else {
            None
        },
        Verb::MakeCollection => if target is None || parent is None {
            Some(Status::NotFound)
        } else if seen.exists {
            Some(Status::Conflict)
        } else if !parent_seen.is_dir {
            Some(Status::Conflict)
        } else if !body_empty {
            Some(Status::NotFound)
        } else {
            None
        },
        Verb::Copy => if target is None || !seen.exists || dest is None || dest_parent is None {
            Some(Status::NotFound)
        } else {
            None
        },
        Verb::Move => if target is None || parent is None || !seen.exists || dest is None
            || dest_parent is None {
            Some(Status::NotFound)
        } else {
            None
        },
        Verb::Unsupported => Some(Status::NotFound),
    }
}

/// Runs the checks of a resolved request. Where one fails the request is
/// answered at once; otherwise the mutation to run is returned. A move always
/// copies the whole tree, whatever the Depth header says.
pub fn decide(req: Resolved, seen: Probe, parent_seen: Probe, body_empty: bool) -> (r: Decision)
    ensures
        ({
            let checked = decide_spec(
                req.verb,
                opt_view(req.target),
                opt_view(req.parent),
                opt_view(req.dest),
                opt_view(req.dest_parent),
                seen,
                parent_seen,
                body_empty,
            );
            match r {
                Decision::Respond(s) => checked == Some(s),
                Decision::Perform(a) => checked is None && match a {
                    Action::Store(p) => req.verb == Verb::Put && opt_view(req.target) == Some(p@),
                    Action::MakeCollection(p) => req.verb == Verb::MakeCollection && opt_view(
                        req.target,
                    ) == Some(p@),
                    Action::Delete(p) => req.verb == Verb::Delete && opt_view(req.target) == Some(
                        p@,
                    ),
                    Action::Copy(s, d, depth) => req.verb == Verb::Copy && opt_view(req.target)
                        == Some(s@) && opt_view(req.dest) == Some(d@) && depth == req.depth,
                    Action::Move(s, d) => req.verb == Verb::Move && opt_view(req.target) == Some(
                        s@,
                    ) && opt_view(req.dest) == Some(d@),
                },
            }
        }),
{
    let Resolved { verb, target, parent, dest, dest_parent, depth } = req;
    match verb {
        Verb::Put => match target {
            None => Decision::Respond(Status::NotFound),
            Some(p) => if seen.is_dir {
                Decision::Respond(Status::MethodNotAllowed)
            } else if parent.is_none() || !parent_seen.is_dir {
                Decision::Respond(Status::Conflict)
            } else {
                Decision::Perform(Action::Store(p))
            },
        },
        Verb::Delete => match target {
            Some(p) => if parent.is_some() && seen.exists {
                Decision::Perform(Action::Delete(p))
            } else {
                Decision::Respond(Status::NotFound)
            },
            None => Decision::Respond(Status::NotFound),
        },
        Verb::MakeCollection => match target {
            Some(p) => if parent.is_none() {
                Decision::Respond(Status::NotFound)
            } else if seen.exists || !parent_seen.is_dir {
                Decision::Respond(Status::Conflict)
            } else if !body_empty {
                Decision::Respond(Status::NotFound)
            } else {
                Decision::Perform(Action::MakeCollection(p))
            },
            None => Decision::Respond(Status::NotFound),
        },
        Verb::Copy | Verb::Move => match (target, dest) {
            (Some(s), Some(d)) => if !seen.exists || dest_parent.is_none() || (verb == Verb::Move
                && parent.is_none()) {
                Decision::Respond(Status::NotFound)
            } else if verb == Verb::Copy {
                Decision::Perform(Action::Copy(s, d, depth))
            } else {
                Decision::Perform(Action::Move(s, d))
            },
            _ => Decision::Respond(Status::NotFound),
        },
        Verb::Unsupported => Decision::Respond(Status::NotFound),
    }
}

/// The status a store ends with: success only when the whole body, no
/// longer than the limit, was read and written.
pub fn store_status(received: u64, written: bool) -> (r: Status)
    ensures
        r == if received <= MAX_FILE_SIZE && written {
            Status::Success
        } else {
            Status::NotFound
        },
{
    if received <= MAX_FILE_SIZE && written {
        Status::Success
    } else {
        Status::NotFound
    }
}

/// Whether a body of `received` bytes may be stored.
pub fn body_fits(received: u64) -> (r: bool)
    ensures
        r == (received <= MAX_FILE_SIZE),
{
    received <= MAX_FILE_SIZE
}

/// The status a mutation ends with: every failure reads as not found.
pub fn finish(action: &Action, succeeded: bool) -> (r: Status)
    ensures
        !succeeded ==> r == Status::NotFound,
        succeeded ==> r == match action {
            Action::Store(_) | Action::MakeCollection(_) => Status::Success,
            _ => Status::NoContent,
        },
{
    if !succeeded {
        return Status::NotFound;
    }
    match action {
        Action::Store(_) | Action::MakeCollection(_) => Status::Success,
        _ => Status::NoContent,
    }
}

} // verus!
