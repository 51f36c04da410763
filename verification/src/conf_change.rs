//! Membership changes as the JSON payload of a log entry.
use vstd::prelude::*;

use crate::json::{
    find_member, is_record, json_parsed, json_text, lemma_nested_within_more, number_field,
    optional_text, parse, read_number, read_optional_text, record_field, render, unit_variant, Json,
    JsonView,
};
use crate::message::{ConfChangeCmd, ConfChangeOp, ConfChangeView};

verus! {

/// The name under which an operation is written.
pub open spec fn op_name(op: ConfChangeOp) -> Seq<char> {
    match op {
        ConfChangeOp::Add => "Add"@,
        ConfChangeOp::Remove => "Remove"@,
    }
}

pub open spec fn op_named(name: Option<Seq<char>>) -> Option<ConfChangeOp> {
    match name {
        Some(n) => if n == "Add"@ {
            Some(ConfChangeOp::Add)
        } else if n == "Remove"@ {
            Some(ConfChangeOp::Remove)
        } else {
            None
        },
        None => None,
    }
}

/// An address member, left out when there is no address.
pub open spec fn addr_members(key: Seq<char>, addr: Option<Seq<char>>) -> Seq<(Seq<char>, JsonView)> {
    match addr {
        Some(text) => seq![(key, JsonView::Text(text))],
        None => Seq::empty(),
    }
}

/// A membership change as a JSON object.
pub open spec fn conf_change_json(cmd: ConfChangeView) -> JsonView {
    JsonView::Object(
        seq![
            ("op"@, JsonView::Text(op_name(cmd.op))),
            ("node_id"@, JsonView::Number(cmd.node_id)),
        ] + addr_members("raft_addr"@, cmd.raft_addr) + addr_members("http_addr"@, cmd.http_addr),
    )
}

/// The membership change that a JSON document stands for, if any.
pub open spec fn conf_change_of(document: JsonView) -> Option<ConfChangeView> {
    let op = match record_field(document, "op"@, 0) {
        Some(field) => op_named(unit_variant(field)),
        None => None,
    };
    let node_id = number_field(record_field(document, "node_id"@, 1));
    let raft_addr = optional_text(record_field(document, "raft_addr"@, 2));
    let http_addr = optional_text(record_field(document, "http_addr"@, 3));
    match (op, node_id, raft_addr, http_addr) {
        (Some(op), Some(node_id), Some(raft_addr), Some(http_addr)) => if is_record(
            document,
            2,
            4,
        ) {
            Some(ConfChangeView { op, node_id, raft_addr, http_addr })
        } else {
            None
        },
        _ => None,
    }
}

/// The bytes under which a membership change stands in the log.
pub open spec fn conf_change_bytes(cmd: ConfChangeView) -> Seq<u8> {
    json_text(conf_change_json(cmd))
}

/// The membership change that the bytes of a log entry stand for, if any.
pub open spec fn conf_change_decoded(command: Seq<u8>) -> Option<ConfChangeView> {
    match json_parsed(command) {
        Some(document) => conf_change_of(document),
        None => None,
    }
}

/// A membership change read from its own JSON object is the same change.
pub proof fn lemma_conf_change_json(cmd: ConfChangeView)
    ensures
        conf_change_of(conf_change_json(cmd)) == Some(cmd),
        conf_change_json(cmd).writable(),
        conf_change_json(cmd).ordinary(),
        conf_change_json(cmd).nested_within(1),
{
    reveal_strlit("op");
    reveal_strlit("node_id");
    reveal_strlit("raft_addr");
    reveal_strlit("http_addr");
    reveal_strlit("Add");
    reveal_strlit("Remove");
    reveal_with_fuel(JsonView::writable, 2);
    reveal_with_fuel(JsonView::ordinary, 2);
    reveal_with_fuel(JsonView::nested_within, 2);
    reveal_with_fuel(find_member, 5);
    let document = conf_change_json(cmd);
    let members = document->Object_0;
    assert("op"@.len() == 2 && "node_id"@.len() == 7 && "raft_addr"@.len() == 9);
    assert("raft_addr"@[0] != "http_addr"@[0]);
    assert(members.skip(1)[0] == members[1]);
    let rest = members.skip(2);
    assert(members.skip(1).skip(1) =~= rest);
    assert(rest =~= addr_members("raft_addr"@, cmd.raft_addr) + addr_members(
        "http_addr"@,
        cmd.http_addr,
    ));
    assert(find_member(members, "op"@) == Some(JsonView::Text(op_name(cmd.op))));
    assert(find_member(members, "node_id"@) == Some(JsonView::Number(cmd.node_id)));
    assert(find_member(members, "raft_addr"@) == find_member(rest, "raft_addr"@));
    assert(find_member(members, "http_addr"@) == find_member(rest, "http_addr"@));
    if rest.len() == 2 {
        assert(rest.skip(1)[0] == rest[1]);
        assert(rest.skip(1).skip(1).len() == 0);
    } else if rest.len() == 1 {
        assert(rest.skip(1).len() == 0);
    }
    assert("Add"@.len() == 3 && "Remove"@.len() == 6);
}

impl ConfChangeCmd {
    /// The JSON payload of a ConfChange entry. Decoding it gives the same change again.
    pub fn encode(&self) -> (command: Vec<u8>)
        ensures
            command@ == conf_change_bytes(self@),
            conf_change_decoded(command@) == Some(self@),
    {
        let op = match self.op {
            ConfChangeOp::Add => "Add".to_owned(),
            ConfChangeOp::Remove => "Remove".to_owned(),
        };
        let mut members: Vec<(String, Json)> = Vec::new();
        members.push(("op".to_owned(), Json::Text(op)));
        members.push(("node_id".to_owned(), Json::Number(self.node_id)));
        if let Some(addr) = &self.raft_addr {
            members.push(("raft_addr".to_owned(), Json::Text(addr.clone())));
        }
        if let Some(addr) = &self.http_addr {
            members.push(("http_addr".to_owned(), Json::Text(addr.clone())));
        }
        let document = Json::Object(members);
        proof {
            reveal_with_fuel(Json::tree, 2);
            assert(document@->Object_0 =~= conf_change_json(self@)->Object_0);
            lemma_conf_change_json(self@);
            lemma_nested_within_more(document@, 1, 127);
        }
        render(&document)
    }

    /// Reads the payload of a ConfChange entry; `None` if it is not one.
    pub fn decode(command: &[u8]) -> (cmd: Option<ConfChangeCmd>)
        ensures
            cmd is Some <==> conf_change_decoded(command@) is Some,
            cmd matches Some(c) ==> conf_change_decoded(command@) == Some(c@),
    {
        let document = match parse(command) {
            Ok(document) => document,
            Err(_) => return None,
        };
        if !document.is_record(2, 4) {
            return None;
        }
        let op = match document.record_field("op", 0) {
            None => return None,
            Some(field) => match field.unit_variant() {
                None => return None,
                Some(name) => {
                    if *name == "Add".to_owned() {
                        ConfChangeOp::Add
                    } else if *name == "Remove".to_owned() {
                        ConfChangeOp::Remove
                    } else {
                        return None;
                    }
                },
            },
        };
        let node_id = match read_number(document.record_field("node_id", 1)) {
            None => return None,
            Some(n) => n,
        };
        let raft_addr = match read_optional_text(document.record_field("raft_addr", 2)) {
            None => return None,
            Some(addr) => addr,
        };
        let http_addr = match read_optional_text(document.record_field("http_addr", 3)) {
            None => return None,
            Some(addr) => addr,
        };
        Some(ConfChangeCmd { op, node_id, raft_addr, http_addr })
    }
}

/// A membership change is written with its operation and its node, and with those addresses that
/// it has.
pub proof fn law_changes_are_written_field_by_field(cmd: ConfChangeView)
    ensures
        ({
            let members = conf_change_json(cmd)->Object_0;
            &&& conf_change_json(cmd) is Object
            &&& find_member(members, "op"@) == Some(
                JsonView::Text(
                    if cmd.op == ConfChangeOp::Add {
                        "Add"@
                    } else {
                        "Remove"@
                    },
                ),
            )
            &&& find_member(members, "node_id"@) == Some(JsonView::Number(cmd.node_id))
            &&& cmd.raft_addr is None ==> find_member(members, "raft_addr"@) is None
            &&& cmd.raft_addr matches Some(addr) ==> find_member(members, "raft_addr"@) == Some(
                JsonView::Text(addr),
            )
            &&& cmd.http_addr is None ==> find_member(members, "http_addr"@) is None
            &&& cmd.http_addr matches Some(addr) ==> find_member(members, "http_addr"@) == Some(
                JsonView::Text(addr),
            )
        }),
{
    reveal_strlit("op");
    reveal_strlit("node_id");
    reveal_strlit("raft_addr");
    reveal_strlit("http_addr");
    reveal_with_fuel(find_member, 5);
    let members = conf_change_json(cmd)->Object_0;
    assert("op"@.len() == 2 && "node_id"@.len() == 7 && "raft_addr"@.len() == 9);
    assert("raft_addr"@[0] != "http_addr"@[0]);
    assert(members.skip(1)[0] == members[1]);
    let rest = members.skip(2);
    assert(members.skip(1).skip(1) =~= rest);
    assert(rest =~= addr_members("raft_addr"@, cmd.raft_addr) + addr_members(
        "http_addr"@,
        cmd.http_addr,
    ));
    assert(find_member(members, "raft_addr"@) == find_member(rest, "raft_addr"@));
    assert(find_member(members, "http_addr"@) == find_member(rest, "http_addr"@));
    if rest.len() == 2 {
        assert(rest.skip(1)[0] == rest[1]);
        assert(rest.skip(1).skip(1).len() == 0);
    } else if rest.len() == 1 {
        assert(rest.skip(1).len() == 0);
    }
}

/// A membership change is read by the names of its fields; an address that is missing or null is
/// none.
pub proof fn law_changes_are_read_by_field(
    fields: Seq<(Seq<char>, JsonView)>,
    node_id: u64,
    raft_addr: Option<Seq<char>>,
    http_addr: Option<Seq<char>>,
)
    requires
        find_member(fields, "node_id"@) == Some(JsonView::Number(node_id)),
        raft_addr matches Some(addr) ==> find_member(fields, "raft_addr"@) == Some(
            JsonView::Text(addr),
        ),
        raft_addr is None ==> find_member(fields, "raft_addr"@) is None || find_member(
            fields,
            "raft_addr"@,
        ) == Some(JsonView::Null),
        http_addr matches Some(addr) ==> find_member(fields, "http_addr"@) == Some(
            JsonView::Text(addr),
        ),
        http_addr is None ==> find_member(fields, "http_addr"@) is None || find_member(
            fields,
            "http_addr"@,
        ) == Some(JsonView::Null),
    ensures
        find_member(fields, "op"@) == Some(JsonView::Text("Add"@)) ==> conf_change_of(
            JsonView::Object(fields),
        ) == Some(ConfChangeView { op: ConfChangeOp::Add, node_id, raft_addr, http_addr }),
        find_member(fields, "op"@) == Some(JsonView::Text("Remove"@)) ==> conf_change_of(
            JsonView::Object(fields),
        ) == Some(ConfChangeView { op: ConfChangeOp::Remove, node_id, raft_addr, http_addr }),
        find_member(fields, "op"@) is None ==> conf_change_of(JsonView::Object(fields)) is None,
{
    reveal_strlit("Add");
    reveal_strlit("Remove");
    assert("Add"@.len() == 3 && "Remove"@.len() == 6);
}

} // verus!
