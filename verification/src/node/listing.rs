//! The contents of a hash table as a list, in whatever order the table hands them out.
use std::collections::{HashMap, HashSet};

use vstd::prelude::*;
use vstd::std_specs::iter::IteratorSpec;

use crate::message::NodeId;
use crate::node::model::enumerates;

verus! {

broadcast use vstd::std_specs::hash::group_hash_axioms;

pub(crate) fn keys_of<V>(map: &HashMap<NodeId, V>) -> (keys: Vec<NodeId>)
    ensures
        enumerates(keys@, map@.dom()),
{
    let mut keys: Vec<NodeId> = Vec::new();
    let listed = map.keys();
    let ghost order = listed.remaining().unref();
    for key in iter: listed
        invariant
            iter.seq().unref() == order,
            keys@ == order.take(iter.index() as int),
    {
        assert(order.take(iter.index() + 1) =~= order.take(iter.index() as int).push(*key));
        keys.push(*key);
    }
    assert(order.take(order.len() as int) =~= order);
    keys
}

pub(crate) fn items_of(set: &HashSet<NodeId>) -> (items: Vec<NodeId>)
    ensures
        enumerates(items@, set@),
{
    let mut items: Vec<NodeId> = Vec::new();
    let listed = set.iter();
    let ghost order = listed.remaining().unref();
    for item in iter: listed
        invariant
            iter.seq().unref() == order,
            items@ == order.take(iter.index() as int),
    {
        assert(order.take(iter.index() + 1) =~= order.take(iter.index() as int).push(*item));
        items.push(*item);
    }
    assert(order.take(order.len() as int) =~= order);
    items
}

} // verus!
