//! The decisions of the HTTP API: where to redirect, what to answer.
//!
//! GET    /kv/{key}         value or 404
//! PUT    /kv/{key}         body = value
//! DELETE /kv/{key}
//! GET    /kv?prefix={p}    JSON map
//! GET    /status           JSON { is_leader, leader_id }
//! POST   /cluster/add      body JSON: {id, raft_addr, http_addr}
//! POST   /cluster/remove   body JSON: {id}
//!
//! A node that does not lead redirects to the leader's HTTP address.
use vstd::prelude::*;
use vstd::utf8::{decode_utf8, valid_utf8};

use crate::embedded::Waited;
use crate::handle::{HandleView, NodeHandle};
use crate::json::{json_text, render, Json, JsonView};
use crate::kv::{pair_views, Command, CommandView};
use crate::message::{text_view, NodeId};
use crate::node::RoleView;

verus! {

/// An answer to a client.
#[derive(Debug)]
pub enum Reply {
    /// 200 without a body.
    Done,
    /// 200 with a value.
    Value(String),
    /// 200 with a JSON map.
    Pairs(Vec<(String, String)>),
    /// 404
    NotFound,
    /// 400
    BadRequest,
    /// 307 to this URL.
    Redirect(String),
    /// 503 with a reason.
    Unavailable(&'static str),
}

#[verifier::ext_equal]
pub ghost enum ReplyView {
    Done,
    Value(Seq<char>),
    Pairs(Seq<(Seq<char>, Seq<char>)>),
    NotFound,
    BadRequest,
    Redirect(Seq<char>),
    Unavailable(Seq<char>),
}

impl View for Reply {
    type V = ReplyView;

    open spec fn view(&self) -> ReplyView {
        match *self {
            Reply::Done => ReplyView::Done,
            Reply::Value(value) => ReplyView::Value(value@),
            Reply::Pairs(pairs) => ReplyView::Pairs(pair_views(pairs@)),
            Reply::NotFound => ReplyView::NotFound,
            Reply::BadRequest => ReplyView::BadRequest,
            Reply::Redirect(url) => ReplyView::Redirect(url@),
            Reply::Unavailable(reason) => ReplyView::Unavailable(reason@),
        }
    }
}

// ── Redirects ──────────────────────────────────────────────────────────────

/// The answer of a node that does not lead: to the same path and query on the leader, if the leader
/// and its address are known.
pub open spec fn redirected(handle: HandleView, path: Seq<char>) -> ReplyView {
    match handle.http_addr_of(handle.node.leader()) {
        Some(addr) => ReplyView::Redirect("http://"@ + addr@ + path),
        None => ReplyView::Unavailable("no leader"@),
    }
}

pub fn redirect_to_leader(handle: &NodeHandle, path: &str) -> (reply: Reply)
    ensures
        reply@ == redirected(handle@, path@),
{
    match handle.http_addr_of(handle.leader_id()) {
        Some(addr) => {
            let mut url: String = "http://".to_owned();
            url.append(addr.as_str());
            url.append(path);
            Reply::Redirect(url)
        },
        None => Reply::Unavailable("no leader"),
    }
}

pub open spec fn key_path(key: Seq<char>) -> Seq<char> {
    "/kv/"@ + key
}

/// The path of a key.
pub fn kv_path(key: &str) -> (path: String)
    ensures
        path@ == key_path(key@),
{
    let mut path: String = "/kv/".to_owned();
    path.append(key);
    path
}

// ── Reads ──────────────────────────────────────────────────────────────────

/// The answer to a read of one key, given whether the store reached the read index in time.
pub fn kv_get(handle: &NodeHandle, key: &str, reached: bool) -> (reply: Reply)
    requires
        handle.wf(),
    ensures
        reply@ == (if !reached {
            ReplyView::Unavailable("read timeout"@)
        } else if handle@.store.contains_key(key@) {
            ReplyView::Value(handle@.store[key@])
        } else {
            ReplyView::NotFound
        }),
{
    if !reached {
        return Reply::Unavailable("read timeout");
    }
    match handle.kv.get(key) {
        Some(value) => Reply::Value(value.to_owned()),
        None => Reply::NotFound,
    }
}

/// The answer to a scan, given whether the store reached the read index in time. No prefix scans
/// everything.
pub fn kv_scan(handle: &NodeHandle, prefix: &Option<String>, reached: bool) -> (reply: Reply)
    requires
        handle.wf(),
    ensures
        reply@ == (if !reached {
            ReplyView::Unavailable("read timeout"@)
        } else {
            let wanted = match text_view(*prefix) {
                Some(p) => p,
                None => Seq::empty(),
            };
            ReplyView::Pairs(
                handle.kv.pairs().filter(
                    |p: (Seq<char>, Seq<char>)| wanted.is_prefix_of(p.0),
                ),
            )
        }),
{
    if !reached {
        return Reply::Unavailable("read timeout");
    }
    match prefix {
        Some(p) => Reply::Pairs(handle.kv.scan_prefix(p.as_str())),
        None => {
            proof {
                reveal_strlit("");
                assert(""@ =~= Seq::empty());
            }
            Reply::Pairs(handle.kv.scan_prefix(""))
        },
    }
}

// ── Writes ─────────────────────────────────────────────────────────────────

/// Calls `String::from_utf8`: the text whose encoding the bytes are, exactly when they are valid
/// UTF-8.
#[verifier::external_body]
fn text_of(bytes: Vec<u8>) -> (text: Option<String>)
    ensures
        text is Some <==> valid_utf8(bytes@),
        text matches Some(t) ==> t@ == decode_utf8(bytes@),
{
    String::from_utf8(bytes).ok()
}

/// The command for a PUT; `None` (a bad request) if the body is not text.
pub fn kv_put(key: String, body: Vec<u8>) -> (command: Option<Command>)
    ensures
        command is Some <==> valid_utf8(body@),
        command matches Some(c) ==> c@ == (CommandView::Put {
            key: key@,
            value: decode_utf8(body@),
        }),
{
    match text_of(body) {
        Some(value) => Some(Command::Put { key, value }),
        None => None,
    }
}

/// The command for a DELETE.
pub fn kv_delete(key: String) -> (command: Command)
    ensures
        command@ == (CommandView::Delete { key: key@ }),
{
    Command::Delete { key }
}

/// The answer to a write, by how the wait for its commit ended.
pub fn commit_reply(waited: Waited) -> (reply: Reply)
    ensures
        reply@ == (match waited {
            Waited::Committed => ReplyView::Done,
            Waited::Dropped => ReplyView::Unavailable("proposal dropped"@),
            Waited::TimedOut => ReplyView::Unavailable("proposal timeout"@),
        }),
{
    match waited {
        Waited::Committed => Reply::Done,
        Waited::Dropped => Reply::Unavailable("proposal dropped"),
        Waited::TimedOut => Reply::Unavailable("proposal timeout"),
    }
}

/// The answer to a membership change, by how the wait for its commit ended.
pub fn conf_change_reply(waited: Waited) -> (reply: Reply)
    ensures
        reply@ == (match waited {
            Waited::Committed => ReplyView::Done,
            Waited::Dropped => ReplyView::Unavailable("conf change dropped"@),
            Waited::TimedOut => ReplyView::Unavailable("conf change timeout"@),
        }),
{
    match waited {
        Waited::Committed => Reply::Done,
        Waited::Dropped => Reply::Unavailable("conf change dropped"),
        Waited::TimedOut => Reply::Unavailable("conf change timeout"),
    }
}

/// The status of a node as a JSON object.
pub open spec fn status_json(is_leader: bool, leader_id: Option<NodeId>) -> JsonView {
    JsonView::Object(
        seq![
            ("is_leader"@, JsonView::Bool(is_leader)),
            (
                "leader_id"@,
                match leader_id {
                    Some(id) => JsonView::Number(id),
                    None => JsonView::Null,
                },
            ),
        ],
    )
}

/// The body of a status answer.
pub fn status(handle: &NodeHandle) -> (body: Vec<u8>)
    ensures
        body@ == json_text(status_json(handle@.node.role is Leader, handle@.node.leader())),
{
    let (is_leader, leader_id) = handle.role_status();
    let leader = match leader_id {
        Some(id) => Json::Number(id),
        None => Json::Null,
    };
    let mut members: Vec<(String, Json)> = Vec::new();
    members.push(("is_leader".to_owned(), Json::Bool(is_leader)));
    members.push(("leader_id".to_owned(), leader));
    let document = Json::Object(members);
    proof {
        reveal_with_fuel(Json::tree, 2);
        reveal_with_fuel(JsonView::writable, 2);
        reveal_with_fuel(JsonView::nested_within, 2);
        reveal_strlit("is_leader");
        reveal_strlit("leader_id");
        assert("is_leader"@[0] != "leader_id"@[0]);
        assert(document@->Object_0 =~= status_json(is_leader, leader_id)->Object_0);
    }
    render(&document)
}

// ── Laws ───────────────────────────────────────────────────────────────────

/// A node that follows a leader sends clients to the same path on that leader, if it knows the
/// address, and has no leader to offer otherwise.
pub proof fn law_clients_are_sent_to_the_leader(
    handle: HandleView,
    leader: NodeId,
    path: Seq<char>,
)
    ensures
        handle.node.role == (RoleView::Follower { leader_id: Some(leader) }) ==> {
            &&& handle.http_peers.contains_key(leader) ==> redirected(handle, path)
                == ReplyView::Redirect("http://"@ + handle.http_peers[leader]@ + path)
            &&& !handle.http_peers.contains_key(leader) ==> redirected(handle, path)
                == ReplyView::Unavailable("no leader"@)
        },
        handle.node.role is Candidate || handle.node.role == (RoleView::Follower {
            leader_id: None,
        }) ==> redirected(handle, path) == ReplyView::Unavailable("no leader"@),
{
}

/// Every key has a path of its own.
pub proof fn law_paths_of_keys(key: Seq<char>, other: Seq<char>)
    ensures
        key_path(key) == "/kv/"@ + key,
        key_path(key) == key_path(other) ==> key == other,
{
    if key_path(key) == key_path(other) {
        let n = "/kv/"@.len() as int;
        assert(key_path(key).skip(n) =~= key);
        assert(key_path(other).skip(n) =~= other);
    }
}

/// The status says whether the node leads, and which leader it knows.
pub proof fn law_status_names_the_leader(is_leader: bool, leader_id: Option<NodeId>)
    ensures
        status_json(is_leader, leader_id).member("is_leader"@) == Some(JsonView::Bool(is_leader)),
        leader_id is None ==> status_json(is_leader, leader_id).member("leader_id"@) == Some(
            JsonView::Null,
        ),
        leader_id matches Some(id) ==> status_json(is_leader, leader_id).member("leader_id"@)
            == Some(JsonView::Number(id)),
        status_json(is_leader, leader_id)->Object_0.len() == 2,
{
    reveal_strlit("is_leader");
    reveal_strlit("leader_id");
    assert("is_leader"@[0] != "leader_id"@[0]);
    let members = status_json(is_leader, leader_id)->Object_0;
    reveal_with_fuel(crate::json::find_member, 3);
    assert(members.skip(1)[0] == members[1]);
}

} // verus!
