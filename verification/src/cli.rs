//! The command line of the server.
use std::collections::HashMap;

use vstd::prelude::*;

use crate::message::NodeId;
use crate::text::{chars_of, number_of, parse_number};

verus! {

broadcast use vstd::std_specs::hash::group_hash_axioms;

#[derive(Debug)]
pub struct NodeConfig {
    pub id: NodeId,
    /// gRPC address for node-to-node Raft RPCs (e.g. 127.0.0.1:7001)
    pub grpc_addr: String,
    /// HTTP address for the client-facing API (e.g. 127.0.0.1:8001)
    pub http_addr: String,
    /// Peer nodes: repeated --peer id=addr (e.g. --peer 2=127.0.0.1:7002)
    pub peers: Vec<(NodeId, String)>,
    /// HTTP addresses of the peers: repeated --http-peer id=addr
    pub http_peers: Vec<(NodeId, String)>,
    pub data_dir: String,
    /// Join without voting rights.
    pub learner: bool,
}

/// The addresses by node; of two addresses for one node the later counts.
pub open spec fn address_map(pairs: Seq<(NodeId, String)>) -> Map<NodeId, String>
    decreases pairs.len(),
{
    if pairs.len() == 0 {
        Map::empty()
    } else {
        address_map(pairs.drop_last()).insert(pairs.last().0, pairs.last().1)
    }
}

fn collect(pairs: &Vec<(NodeId, String)>) -> (map: HashMap<NodeId, String>)
    ensures
        map@ == address_map(pairs@),
{
    let mut map: HashMap<NodeId, String> = HashMap::new();
    let mut i: usize = 0;
    assert(pairs@.take(0) =~= Seq::empty());
    assert(map@ =~= Map::empty());
    while i < pairs.len()
        invariant
            i <= pairs@.len(),
            map@ == address_map(pairs@.take(i as int)),
        decreases pairs@.len() - i,
    {
        assert(pairs@.take(i + 1).drop_last() =~= pairs@.take(i as int));
        map.insert(pairs[i].0, pairs[i].1.clone());
        i += 1;
    }
    assert(pairs@.take(i as int) =~= pairs@);
    map
}

impl NodeConfig {
    /// The Raft addresses of the peers.
    pub fn peers(&self) -> (map: HashMap<NodeId, String>)
        ensures
            map@ == address_map(self.peers@),
    {
        collect(&self.peers)
    }

    /// The Raft addresses of the peers.
    pub fn peers_map(&self) -> (map: HashMap<NodeId, String>)
        ensures
            map@ == address_map(self.peers@),
    {
        collect(&self.peers)
    }

    /// The HTTP addresses of the peers.
    pub fn http_peers_map(&self) -> (map: HashMap<NodeId, String>)
        ensures
            map@ == address_map(self.http_peers@),
    {
        collect(&self.http_peers)
    }
}

/// `index` is where the first `=` stands.
pub open spec fn first_equals(text: Seq<char>, index: int) -> bool {
    &&& 0 <= index < text.len()
    &&& text[index] == '='
    &&& forall|i: int| 0 <= i < index ==> text[i] != '='
}

/// Parses `id=addr`. The address is everything behind the first `=`.
pub fn parse_peer(s: &str) -> (peer: Result<(NodeId, String), String>)
    ensures
        match peer {
            Ok((id, addr)) => exists|at: int| #[trigger]
                first_equals(s@, at) && number_of(s@.take(at)) == Some(id) && addr@ == s@.skip(
                    at + 1,
                ),
            Err(error) => {
                ||| (forall|at: int| !#[trigger] first_equals(s@, at)) && error@
                    == "expected id=addr, got '"@ + s@ + "'"@
                ||| exists|at: int| #[trigger]
                    first_equals(s@, at) && number_of(s@.take(at)) is None && error@
                        == "invalid node id: "@ + s@.take(at)
            },
        },
{
    let chars = chars_of(s);
    let mut at: usize = 0;
    while at < chars.len() && chars[at] != '='
        invariant
            at <= chars@.len(),
            chars@ == s@,
            forall|i: int| 0 <= i < at ==> chars@[i] != '=',
        decreases chars@.len() - at,
    {
        at += 1;
    }
    if at == chars.len() {
        let mut error: String = "expected id=addr, got '".to_owned();
        error.append(s);
        error.append("'");
        assert(forall|i: int| !#[trigger] first_equals(s@, i));
        return Err(error);
    }
    assert(first_equals(s@, at as int));
    let len = s.unicode_len();
    let id_text = s.substring_char(0, at);
    let addr = s.substring_char(at + 1, len).to_owned();
    assert(id_text@ =~= s@.take(at as int));
    assert(addr@ =~= s@.skip(at + 1));
    match parse_number(id_text) {
        Some(id) => Ok((id, addr)),
        None => {
            let mut error: String = "invalid node id: ".to_owned();
            error.append(id_text);
            Err(error)
        },
    }
}

/// Of the addresses that are given for a node the last one counts, and only nodes that are given
/// an address have one.
pub proof fn law_last_address_counts(pairs: Seq<(NodeId, String)>, at: int, node: NodeId)
    ensures
        0 <= at < pairs.len() && pairs[at].0 == node && (forall|j: int|
            at < j < pairs.len() ==> (#[trigger] pairs[j]).0 != node) ==> address_map(
            pairs,
        ).contains_key(node) && address_map(pairs)[node] == pairs[at].1,
        (forall|j: int| 0 <= j < pairs.len() ==> (#[trigger] pairs[j]).0 != node) ==> !address_map(
            pairs,
        ).contains_key(node),
    decreases pairs.len(),
{
    if pairs.len() > 0 {
        let rest = pairs.drop_last();
        law_last_address_counts(rest, at, node);
        assert(pairs[pairs.len() - 1] == pairs.last());
        assert forall|j: int| 0 <= j < rest.len() implies #[trigger] rest[j] == pairs[j] by {}
    }
}

/// There is at most one place where the first equals sign stands, and every text with an equals
/// sign has one.
pub proof fn law_first_equals_sign(text: Seq<char>, at: int, other: int) -> (first: int)
    requires
        0 <= at < text.len(),
        text[at] == '=',
    ensures
        first_equals(text, first),
        first <= at,
        first_equals(text, other) ==> other == first,
    decreases at,
{
    if exists|i: int| 0 <= i < at && text[i] == '=' {
        let i = choose|i: int| 0 <= i < at && text[i] == '=';
        law_first_equals_sign(text, i, other)
    } else {
        assert(first_equals(text, at));
        at
    }
}

} // verus!
