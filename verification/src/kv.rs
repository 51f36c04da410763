//! The in-memory key-value state machine on top of committed Raft log entries.
use vstd::prelude::*;

use crate::json::{
    data_variant, find_member, is_record, json_map_parsed, json_map_text, json_parsed, json_text,
    pair_map, parse, parse_map, read_text, record_field, render, render_map, text_field, Json,
    JsonError, JsonView,
};
use crate::text::{
    before, is_before, lemma_before_irreflexive, lemma_before_total, lemma_before_transitive,
    lemma_prefix_interval, lemma_prefix_not_after, same_text, starts_with,
};

pub use crate::json::pair_views;

verus! {

// ── Commands ───────────────────────────────────────────────────────────────

#[derive(Debug, PartialEq, Eq)]
pub enum Command {
    Put { key: String, value: String },
    Delete { key: String },
}

pub ghost enum CommandView {
    Put { key: Seq<char>, value: Seq<char> },
    Delete { key: Seq<char> },
}

impl View for Command {
    type V = CommandView;

    open spec fn view(&self) -> CommandView {
        match *self {
            Command::Put { key, value } => CommandView::Put { key: key@, value: value@ },
            Command::Delete { key } => CommandView::Delete { key: key@ },
        }
    }
}

impl Clone for Command {
    fn clone(&self) -> (copy: Self)
        ensures
            copy@ == self@,
    {
        match self {
            Command::Put { key, value } => Command::Put { key: key.clone(), value: value.clone() },
            Command::Delete { key } => Command::Delete { key: key.clone() },
        }
    }
}

/// A command as a JSON object with one member, named after the command.
pub open spec fn command_json(command: CommandView) -> JsonView {
    match command {
        CommandView::Put { key, value } => JsonView::Object(
            seq![
                (
                    "Set"@,
                    JsonView::Object(
                        seq![("key"@, JsonView::Text(key)), ("value"@, JsonView::Text(value))],
                    ),
                ),
            ],
        ),
        CommandView::Delete { key } => JsonView::Object(
            seq![("Delete"@, JsonView::Object(seq![("key"@, JsonView::Text(key))]))],
        ),
    }
}

/// The command that a JSON document stands for, if any.
pub open spec fn command_of(document: JsonView) -> Option<CommandView> {
    match data_variant(document) {
        None => None,
        Some((name, fields)) => {
            let key = text_field(record_field(fields, "key"@, 0));
            let value = text_field(record_field(fields, "value"@, 1));
            if name == "Set"@ && is_record(fields, 2, 2) && key is Some && value is Some {
                Some(CommandView::Put { key: key->0, value: value->0 })
            } else if name == "Delete"@ && is_record(fields, 1, 1) && key is Some {
                Some(CommandView::Delete { key: key->0 })
            } else {
                None
            }
        },
    }
}

/// The bytes under which a command stands in the log.
pub open spec fn command_bytes(command: CommandView) -> Seq<u8> {
    json_text(command_json(command))
}

/// The command that the bytes of a log entry stand for, if any.
pub open spec fn command_decoded(bytes: Seq<u8>) -> Option<CommandView> {
    match json_parsed(bytes) {
        Some(document) => command_of(document),
        None => None,
    }
}

/// A command read from its own JSON object is the same command.
pub proof fn lemma_command_json(command: CommandView)
    ensures
        command_of(command_json(command)) == Some(command),
        command_json(command).writable(),
        command_json(command).ordinary(),
        command_json(command).nested_within(127),
{
    reveal_strlit("Set");
    reveal_strlit("Delete");
    reveal_strlit("key");
    reveal_strlit("value");
    reveal_with_fuel(JsonView::writable, 3);
    reveal_with_fuel(JsonView::ordinary, 3);
    reveal_with_fuel(JsonView::nested_within, 3);
    reveal_with_fuel(find_member, 3);
    assert("Set"@.len() == 3 && "Delete"@.len() == 6);
    assert("key"@.len() == 3 && "value"@.len() == 5);
    match command {
        CommandView::Put { key, value } => {
            let fields = seq![("key"@, JsonView::Text(key)), ("value"@, JsonView::Text(value))];
            assert(fields.skip(1)[0] == fields[1]);
            let inner = JsonView::Object(fields);
            assert(inner.writable());
            assert(inner.ordinary());
            assert(inner.nested_within(126));
            assert(data_variant(command_json(command)) == Some(("Set"@, inner)));
        },
        CommandView::Delete { key } => {
            let inner = JsonView::Object(seq![("key"@, JsonView::Text(key))]);
            assert(inner.writable());
            assert(inner.ordinary());
            assert(inner.nested_within(126));
            assert(data_variant(command_json(command)) == Some(("Delete"@, inner)));
        },
    }
}

impl Command {
    /// The JSON payload of a log entry. Decoding it gives the same command again.
    pub fn encode(&self) -> (bytes: Vec<u8>)
        ensures
            bytes@ == command_bytes(self@),
            command_decoded(bytes@) == Some(self@),
    {
        let mut fields: Vec<(String, Json)> = Vec::new();
        let name = match self {
            Command::Put { key, value } => {
                fields.push(("key".to_owned(), Json::Text(key.clone())));
                fields.push(("value".to_owned(), Json::Text(value.clone())));
                "Set"
            },
            Command::Delete { key } => {
                fields.push(("key".to_owned(), Json::Text(key.clone())));
                "Delete"
            },
        };
        let mut members: Vec<(String, Json)> = Vec::new();
        members.push((name.to_owned(), Json::Object(fields)));
        let document = Json::Object(members);
        proof {
            reveal_with_fuel(Json::tree, 3);
            let inner = document@->Object_0[0].1;
            assert(inner == members@[0].1@);
            assert(inner->Object_0 =~= command_json(self@)->Object_0[0].1->Object_0);
            assert(document@->Object_0 =~= command_json(self@)->Object_0);
            lemma_command_json(self@);
        }
        render(&document)
    }

    /// Reads the payload of a log entry.
    pub fn decode(bytes: &[u8]) -> (command: Result<Command, JsonError>)
        ensures
            match command {
                Ok(c) => command_decoded(bytes@) == Some(c@),
                Err(JsonError::Syntax(_)) => json_parsed(bytes@) is None,
                Err(JsonError::Shape) => json_parsed(bytes@) is Some && command_decoded(bytes@)
                    is None,
            },
    {
        let document = match parse(bytes) {
            Ok(document) => document,
            Err(error) => return Err(JsonError::Syntax(error)),
        };
        match Self::from_json(&document) {
            Some(command) => Ok(command),
            None => Err(JsonError::Shape),
        }
    }

    fn from_json(document: &Json) -> (command: Option<Command>)
        ensures
            command is Some <==> command_of(document@) is Some,
            command matches Some(c) ==> command_of(document@) == Some(c@),
    {
        let (name, fields) = match document.data_variant() {
            Some(variant) => variant,
            None => return None,
        };
        let key = read_text(fields.record_field("key", 0));
        let value = read_text(fields.record_field("value", 1));
        if same_text(name.as_str(), "Set") {
            proof {
                reveal_strlit("Set");
                reveal_strlit("Delete");
                assert("Set"@.len() == 3 && "Delete"@.len() == 6);
            }
            if !fields.is_record(2, 2) {
                return None;
            }
            match (key, value) {
                (Some(key), Some(value)) => Some(Command::Put { key, value }),
                _ => None,
            }
        } else if same_text(name.as_str(), "Delete") {
            if !fields.is_record(1, 1) {
                return None;
            }
            match key {
                Some(key) => Some(Command::Delete { key }),
                None => None,
            }
        } else {
            None
        }
    }
}

// ── The store ──────────────────────────────────────────────────────────────

/// Ordered key-value store: the pairs in the order of their keys, each key once.
#[derive(Debug)]
pub struct KvStore {
    entries: Vec<(String, String)>,
}

pub type Pairs = Seq<(Seq<char>, Seq<char>)>;

pub type TextMap = Map<Seq<char>, Seq<char>>;

/// The keys ascend, so that none occurs twice.
pub open spec fn ascending(pairs: Pairs) -> bool {
    forall|i: int, j: int|
        0 <= i < j < pairs.len() ==> before((#[trigger] pairs[i]).0, (#[trigger] pairs[j]).0)
}

pub open spec fn has_key(pairs: Pairs, key: Seq<char>) -> bool {
    exists|i: int| 0 <= i < pairs.len() && (#[trigger] pairs[i]).0 == key
}

/// A position at which a key stands.
pub open spec fn key_position(pairs: Pairs, key: Seq<char>) -> int {
    choose|i: int| 0 <= i < pairs.len() && (#[trigger] pairs[i]).0 == key
}

/// The contents of a list of pairs.
pub open spec fn contents(pairs: Pairs) -> TextMap {
    Map::new(
        |key: Seq<char>| has_key(pairs, key),
        |key: Seq<char>| pairs[key_position(pairs, key)].1,
    )
}

proof fn lemma_contents(pairs: Pairs, i: int)
    requires
        ascending(pairs),
        0 <= i < pairs.len(),
    ensures
        contents(pairs).contains_key(pairs[i].0),
        contents(pairs)[pairs[i].0] == pairs[i].1,
{
    let key = pairs[i].0;
    let j = key_position(pairs, key);
    assert(has_key(pairs, key));
    assert(pairs[j].0 == key);
    if j != i {
        lemma_before_irreflexive(key);
    }
}

/// Two ascending lists with the same contents are the same list.
pub proof fn lemma_listing_unique(a: Pairs, b: Pairs)
    requires
        ascending(a),
        ascending(b),
        contents(a) == contents(b),
    ensures
        a == b,
    decreases a.len(),
{
    if a.len() == 0 {
        if b.len() > 0 {
            lemma_contents(b, 0);
        }
        assert(a =~= b);
    } else if b.len() == 0 {
        lemma_contents(a, 0);
    } else {
        let ka = a.last().0;
        let kb = b.last().0;
        lemma_contents(a, a.len() - 1);
        lemma_contents(b, b.len() - 1);
        let i = choose|i: int| 0 <= i < a.len() && (#[trigger] a[i]).0 == kb;
        let j = choose|j: int| 0 <= j < b.len() && (#[trigger] b[j]).0 == ka;
        assert(has_key(a, kb));
        assert(has_key(b, ka));
        if ka != kb {
            assert(before(a[i].0, a[a.len() - 1].0));
            assert(before(b[j].0, b[b.len() - 1].0));
            lemma_before_transitive(ka, kb, ka);
            lemma_before_irreflexive(ka);
        }
        let x = a.drop_last();
        let y = b.drop_last();
        assert(contents(x) =~= contents(y)) by {
            assert forall|key: Seq<char>| has_key(x, key) <==> has_key(y, key) by {
                lemma_contents_drop_last(a, key);
                lemma_contents_drop_last(b, key);
                assert(contents(a).dom().contains(key) == has_key(a, key));
                assert(contents(b).dom().contains(key) == has_key(b, key));
            }
            assert forall|key: Seq<char>| has_key(x, key) implies contents(x)[key] == contents(
                y,
            )[key] by {
                let m = choose|m: int| 0 <= m < x.len() && (#[trigger] x[m]).0 == key;
                let n = choose|n: int| 0 <= n < y.len() && (#[trigger] y[n]).0 == key;
                assert(has_key(y, key));
                lemma_contents(a, m);
                lemma_contents(b, n);
                lemma_contents(x, m);
                lemma_contents(y, n);
            }
        }
        lemma_listing_unique(x, y);
        assert(a =~= x.push(a.last()));
        assert(b =~= y.push(b.last()));
    }
}

proof fn lemma_contents_drop_last(pairs: Pairs, key: Seq<char>)
    requires
        ascending(pairs),
        pairs.len() > 0,
    ensures
        has_key(pairs.drop_last(), key) <==> has_key(pairs, key) && key != pairs.last().0,
{
    let rest = pairs.drop_last();
    if has_key(rest, key) {
        let i = choose|i: int| 0 <= i < rest.len() && (#[trigger] rest[i]).0 == key;
        assert(pairs[i].0 == key);
        if key == pairs.last().0 {
            lemma_before_irreflexive(key);
        }
    }
    if has_key(pairs, key) && key != pairs.last().0 {
        let i = choose|i: int| 0 <= i < pairs.len() && (#[trigger] pairs[i]).0 == key;
        assert(rest[i].0 == key);
    }
}

/// The store after a command.
pub open spec fn applied(store: TextMap, command: CommandView) -> TextMap {
    match command {
        CommandView::Put { key, value } => store.insert(key, value),
        CommandView::Delete { key } => store.remove(key),
    }
}

/// The store after an encoded command. Bytes that are no command, and an empty command, leave it
/// alone.
pub open spec fn after_bytes(store: TextMap, bytes: Seq<u8>) -> TextMap {
    match command_decoded(bytes) {
        Some(command) => if bytes.len() > 0 {
            applied(store, command)
        } else {
            store
        },
        None => store,
    }
}

impl View for KvStore {
    type V = TextMap;

    closed spec fn view(&self) -> TextMap {
        contents(self.pairs())
    }
}

impl Default for KvStore {
    fn default() -> (store: Self)
        ensures
            store.wf(),
            store@ == TextMap::empty(),
    {
        let store = KvStore { entries: Vec::new() };
        assert(store@ =~= TextMap::empty());
        store
    }
}

impl KvStore {
    /// The pairs of the store in the order of their keys.
    pub closed spec fn pairs(self) -> Pairs {
        pair_views(self.entries@)
    }

    pub closed spec fn wf(self) -> bool {
        ascending(self.pairs())
    }

    /// The listing of a store holds its contents and nothing else, in ascending order.
    pub proof fn law_pairs_list_the_store(self)
        requires
            self.wf(),
        ensures
            ascending(self.pairs()),
            self@ == contents(self.pairs()),
    {
    }

    /// The first position whose key does not come before `key`.
    fn position(&self, key: &str) -> (at: usize)
        requires
            self.wf(),
        ensures
            at <= self.pairs().len(),
            forall|i: int| 0 <= i < at ==> before((#[trigger] self.pairs()[i]).0, key@),
            forall|i: int|
                at <= i < self.pairs().len() ==> !before((#[trigger] self.pairs()[i]).0, key@),
            at < self.pairs().len() && self.pairs()[at as int].0 == key@ || !has_key(
                self.pairs(),
                key@,
            ),
    {
        let mut low: usize = 0;
        let mut high: usize = self.entries.len();
        while low < high
            invariant
                low <= high <= self.entries@.len(),
                ascending(self.pairs()),
                self.pairs().len() == self.entries@.len(),
                forall|i: int| 0 <= i < low ==> before((#[trigger] self.pairs()[i]).0, key@),
                forall|i: int|
                    high <= i < self.pairs().len() ==> !before((#[trigger] self.pairs()[i]).0, key@),
            decreases high - low,
        {
            let middle = low + (high - low) / 2;
            assert(self.pairs()[middle as int].0 == self.entries@[middle as int].0@);
            if is_before(self.entries[middle].0.as_str(), key) {
                assert forall|i: int| 0 <= i < middle + 1 implies before(
                    (#[trigger] self.pairs()[i]).0,
                    key@,
                ) by {
                    if i < middle {
                        lemma_before_transitive(
                            self.pairs()[i].0,
                            self.pairs()[middle as int].0,
                            key@,
                        );
                    }
                }
                low = middle + 1;
            } else {
                assert forall|i: int| middle <= i < self.pairs().len() implies !before(
                    (#[trigger] self.pairs()[i]).0,
                    key@,
                ) by {
                    if i > middle && before(self.pairs()[i].0, key@) {
                        lemma_before_transitive(
                            self.pairs()[middle as int].0,
                            self.pairs()[i].0,
                            key@,
                        );
                    }
                }
                high = middle;
            }
        }
        proof {
            if has_key(self.pairs(), key@) {
                let i = choose|i: int| 0 <= i < self.pairs().len() && (#[trigger] self.pairs()[i]).0 == key@;
                lemma_before_irreflexive(key@);
                assert(i >= low);
                if i > low {
                    assert(before(self.pairs()[low as int].0, self.pairs()[i].0));
                }
            }
        }
        low
    }

    pub fn get(&self, key: &str) -> (value: Option<&str>)
        requires
            self.wf(),
        ensures
            value is Some <==> self@.contains_key(key@),
            value matches Some(v) ==> v@ == self@[key@],
    {
        let at = self.position(key);
        if at < self.entries.len() && same_text(self.entries[at].0.as_str(), key) {
            proof {
                lemma_contents(self.pairs(), at as int);
            }
            Some(self.entries[at].1.as_str())
        } else {
            None
        }
    }

    pub fn set(&mut self, key: String, value: String)
        requires
            old(self).wf(),
        ensures
            final(self).wf(),
            final(self)@ == old(self)@.insert(key@, value@),
    {
        let at = self.position(key.as_str());
        let ghost old_pairs = self.pairs();
        let ghost pair = (key@, value@);
        if at < self.entries.len() && same_text(self.entries[at].0.as_str(), key.as_str()) {
            self.entries.set(at, (key, value));
            proof {
                let pairs = self.pairs();
                assert(pairs =~= old_pairs.update(at as int, pair));
                assert(contents(pairs) =~= contents(old_pairs).insert(pair.0, pair.1)) by {
                    lemma_contents_update(old_pairs, at as int, pair);
                }
            }
        } else {
            self.entries.insert(at, (key, value));
            proof {
                let pairs = self.pairs();
                assert(pairs =~= old_pairs.insert(at as int, pair));
                lemma_contents_insert(old_pairs, at as int, pair);
            }
        }
    }

    pub fn delete(&mut self, key: &str)
        requires
            old(self).wf(),
        ensures
            final(self).wf(),
            final(self)@ == old(self)@.remove(key@),
    {
        let at = self.position(key);
        let ghost old_pairs = self.pairs();
        if at < self.entries.len() && same_text(self.entries[at].0.as_str(), key) {
            self.entries.remove(at);
            proof {
                assert(self.pairs() =~= old_pairs.remove(at as int));
                lemma_contents_remove(old_pairs, at as int);
            }
        } else {
            assert(self@ =~= old(self)@.remove(key@));
        }
    }

    /// Carries out a command.
    pub fn run(&mut self, command: Command)
        requires
            old(self).wf(),
        ensures
            final(self).wf(),
            final(self)@ == applied(old(self)@, command@),
    {
        match command {
            Command::Put { key, value } => self.set(key, value),
            Command::Delete { key } => self.delete(key.as_str()),
        }
    }

    /// Carries out an encoded command. An empty one, which a new leader writes, is skipped. The store
    /// is unchanged if the bytes are not a command.
    pub fn apply(&mut self, command_bytes: &[u8]) -> (res: Result<(), JsonError>)
        requires
            old(self).wf(),
        ensures
            final(self).wf(),
            final(self)@ == after_bytes(old(self)@, command_bytes@),
            match res {
                Ok(()) => command_bytes@.len() == 0 || command_decoded(command_bytes@) is Some,
                Err(JsonError::Syntax(_)) => command_bytes@.len() > 0 && json_parsed(command_bytes@)
                    is None,
                Err(JsonError::Shape) => command_bytes@.len() > 0 && json_parsed(command_bytes@)
                    is Some && command_decoded(command_bytes@) is None,
            },
    {
        if command_bytes.len() == 0 {
            return Ok(());
        }
        match Command::decode(command_bytes) {
            Ok(command) => {
                self.run(command);
                Ok(())
            },
            Err(error) => Err(error),
        }
    }

    /// Every pair whose key starts with `prefix`, in the order of the keys. Such keys stand next
    /// to each other: the scan begins at the first and ends with the last of them.
    pub fn scan_prefix(&self, prefix: &str) -> (found: Vec<(String, String)>)
        requires
            self.wf(),
        ensures
            pair_views(found@) == self.pairs().filter(
                |p: (Seq<char>, Seq<char>)| prefix@.is_prefix_of(p.0),
            ),
    {
        let ghost matches = |p: (Seq<char>, Seq<char>)| prefix@.is_prefix_of(p.0);
        let ghost pairs = self.pairs();
        let start = self.position(prefix);
        let mut found: Vec<(String, String)> = Vec::new();
        let mut i = start;
        proof {
            assert forall|j: int| 0 <= j < start implies !matches(#[trigger] pairs.take(start as int)[j]) by {
                if matches(pairs[j]) {
                    lemma_prefix_not_after(prefix@, pairs[j].0);
                }
            }
            lemma_filter_none(pairs.take(start as int), matches);
            assert(pair_views(found@) =~= Seq::empty());
        }
        while i < self.entries.len() && starts_with(self.entries[i].0.as_str(), prefix)
            invariant
                self.wf(),
                start <= i <= self.entries@.len(),
                pairs == self.pairs(),
                pairs.len() == self.entries@.len(),
                matches == (|p: (Seq<char>, Seq<char>)| prefix@.is_prefix_of(p.0)),
                pair_views(found@) == pairs.take(i as int).filter(matches),
                forall|j: int|
                    start <= j < pairs.len() ==> !before((#[trigger] pairs[j]).0, prefix@),
            decreases self.entries@.len() - i,
        {
            let ghost before_push = found@;
            let key = self.entries[i].0.clone();
            let value = self.entries[i].1.clone();
            found.push((key, value));
            proof {
                reveal(Seq::filter);
                assert(pairs.take(i + 1).drop_last() =~= pairs.take(i as int));
                assert(pairs[i as int] == (key@, value@));
                assert(pair_views(found@) =~= pair_views(before_push).push((key@, value@)));
            }
            i += 1;
        }
        proof {
            let rest = pairs.skip(i as int);
            assert forall|j: int| 0 <= j < rest.len() implies !matches(#[trigger] rest[j]) by {
                let stop = pairs[i as int].0;
                assert(rest[j] == pairs[i + j]);
                assert(!matches(pairs[i as int]));
                if j > 0 && matches(rest[j]) {
                    assert(before(pairs[i as int].0, pairs[i + j].0));
                    lemma_before_total(prefix@, stop);
                    assert(prefix@.is_prefix_of(prefix@)) by {
                        assert(prefix@.subrange(0, prefix@.len() as int) =~= prefix@);
                    }
                    lemma_prefix_interval(prefix@, prefix@, stop, rest[j].0);
                }
            }
            lemma_filter_none(rest, matches);
            Seq::filter_distributes_over_add(pairs.take(i as int), rest, matches);
            assert(pairs.take(i as int) + rest =~= pairs);
            assert(pair_views(found@) + Seq::empty() =~= pair_views(found@));
        }
        found
    }

    /// The whole store as JSON text, the keys in ascending order. Restoring it gives the same
    /// store again.
    pub fn snapshot(&self) -> (text: Vec<u8>)
        requires
            self.wf(),
        ensures
            text@ == json_map_text(self@),
            store_decoded(text@) == Some(self@),
    {
        proof {
            lemma_pair_map(self.pairs());
        }
        render_map(self.entries.as_slice())
    }

    /// Replaces the whole store by a snapshot. The store is unchanged if the text is not one.
    pub fn restore(&mut self, snapshot: &[u8]) -> (res: Result<(), serde_json::Error>)
        requires
            old(self).wf(),
        ensures
            final(self).wf(),
            match res {
                Ok(()) => store_decoded(snapshot@) == Some(final(self)@),
                Err(_) => store_decoded(snapshot@) is None && final(self)@ == old(self)@,
            },
    {
        let pairs = match parse_map(snapshot) {
            Ok(pairs) => pairs,
            Err(error) => return Err(error),
        };
        let ghost views = pair_views(pairs@);
        let mut restored = KvStore::default();
        let mut i: usize = 0;
        assert(views.take(0) =~= Seq::empty());
        while i < pairs.len()
            invariant
                i <= pairs@.len(),
                restored.wf(),
                views == pair_views(pairs@),
                restored@ == pair_map(views.take(i as int)),
            decreases pairs@.len() - i,
        {
            assert(views[i as int] == (pairs@[i as int].0@, pairs@[i as int].1@));
            assert(views.take(i + 1).drop_last() =~= views.take(i as int));
            restored.set(pairs[i].0.clone(), pairs[i].1.clone());
            i += 1;
        }
        assert(views.take(i as int) =~= views);
        *self = restored;
        Ok(())
    }
}

/// The store that a JSON text holds, if it is an object with nothing but texts in it.
pub open spec fn store_decoded(text: Seq<u8>) -> Option<TextMap> {
    json_map_parsed(text)
}

proof fn lemma_pair_map(pairs: Pairs)
    requires
        ascending(pairs),
    ensures
        pair_map(pairs) == contents(pairs),
    decreases pairs.len(),
{
    if pairs.len() == 0 {
        assert(contents(pairs) =~= Map::empty());
    } else {
        let rest = pairs.drop_last();
        lemma_pair_map(rest);
        let at = rest.len() as int;
        let last = pairs.last();
        assert(rest.insert(at, last) =~= pairs);
        assert(!has_key(rest, last.0)) by {
            lemma_contents_drop_last(pairs, last.0);
        }
        assert forall|i: int| 0 <= i < at implies before((#[trigger] rest[i]).0, last.0) by {
            assert(before(pairs[i].0, pairs[at].0));
        }
        lemma_contents_insert(rest, at, last);
    }
}

proof fn lemma_filter_none<A>(items: Seq<A>, pred: spec_fn(A) -> bool)
    requires
        forall|i: int| 0 <= i < items.len() ==> !pred(#[trigger] items[i]),
    ensures
        items.filter(pred) == Seq::<A>::empty(),
    decreases items.len(),
{
    reveal(Seq::filter);
    if items.len() > 0 {
        let rest = items.drop_last();
        assert forall|i: int| 0 <= i < rest.len() implies !pred(#[trigger] rest[i]) by {
            assert(rest[i] == items[i]);
        }
        lemma_filter_none(rest, pred);
        assert(!pred(items[items.len() - 1]));
    }
}

// ── Laws ───────────────────────────────────────────────────────────────────

/// The store after a sequence of commands.
pub open spec fn replayed(store: TextMap, commands: Seq<CommandView>) -> TextMap
    decreases commands.len(),
{
    if commands.len() == 0 {
        store
    } else {
        applied(replayed(store, commands.drop_last()), commands.last())
    }
}

/// A value that was written is read back, and nothing else changes.
pub proof fn law_write_is_read_back(
    store: TextMap,
    key: Seq<char>,
    value: Seq<char>,
    other: Seq<char>,
)
    ensures
        ({
            let after = applied(store, CommandView::Put { key, value });
            &&& after.contains_key(key)
            &&& after[key] == value
            &&& other != key ==> after.contains_key(other) == store.contains_key(other)
            &&& other != key && store.contains_key(other) ==> after[other] == store[other]
        }),
{
}

/// A deleted key is gone, and nothing else changes.
pub proof fn law_delete_removes(store: TextMap, key: Seq<char>, other: Seq<char>)
    ensures
        ({
            let after = applied(store, CommandView::Delete { key });
            &&& !after.contains_key(key)
            &&& other != key ==> after.contains_key(other) == store.contains_key(other)
            &&& other != key && store.contains_key(other) ==> after[other] == store[other]
        }),
{
}

/// A replica that starts from a snapshot taken in the middle of the log and carries out the rest
/// ends with the same store as one that carried out all of it.
pub proof fn law_snapshot_then_rest(
    store: TextMap,
    covered: Seq<CommandView>,
    rest: Seq<CommandView>,
)
    ensures
        replayed(replayed(store, covered), rest) == replayed(store, covered + rest),
    decreases rest.len(),
{
    if rest.len() == 0 {
        assert(covered + rest =~= covered);
    } else {
        law_snapshot_then_rest(store, covered, rest.drop_last());
        assert((covered + rest).drop_last() =~= covered + rest.drop_last());
    }
}

proof fn lemma_contents_update(pairs: Pairs, at: int, pair: (Seq<char>, Seq<char>))
    requires
        ascending(pairs),
        0 <= at < pairs.len(),
        pairs[at].0 == pair.0,
    ensures
        ascending(pairs.update(at, pair)),
        contents(pairs.update(at, pair)) == contents(pairs).insert(pair.0, pair.1),
{
    let after = pairs.update(at, pair);
    assert(ascending(after));
    assert forall|key: Seq<char>| has_key(after, key) <==> has_key(pairs, key) by {
        if has_key(after, key) {
            let i = choose|i: int| 0 <= i < after.len() && (#[trigger] after[i]).0 == key;
            assert(pairs[i].0 == key);
        }
        if has_key(pairs, key) {
            let i = choose|i: int| 0 <= i < pairs.len() && (#[trigger] pairs[i]).0 == key;
            assert(after[i].0 == key);
        }
    }
    lemma_contents(after, at);
    assert(pairs[at].0 == pair.0);
    assert forall|key: Seq<char>| has_key(after, key) implies contents(after)[key] == contents(
        pairs,
    ).insert(pair.0, pair.1)[key] by {
        let i = choose|i: int| 0 <= i < after.len() && (#[trigger] after[i]).0 == key;
        lemma_contents(after, i);
        lemma_contents(pairs, i);
        if i != at && key == pair.0 {
            lemma_before_irreflexive(key);
        }
    }
    assert(contents(after) =~= contents(pairs).insert(pair.0, pair.1));
}

proof fn lemma_contents_insert(pairs: Pairs, at: int, pair: (Seq<char>, Seq<char>))
    requires
        ascending(pairs),
        0 <= at <= pairs.len(),
        !has_key(pairs, pair.0),
        forall|i: int| 0 <= i < at ==> before((#[trigger] pairs[i]).0, pair.0),
        forall|i: int| at <= i < pairs.len() ==> !before((#[trigger] pairs[i]).0, pair.0),
    ensures
        ascending(pairs.insert(at, pair)),
        contents(pairs.insert(at, pair)) == contents(pairs).insert(pair.0, pair.1),
{
    let after = pairs.insert(at, pair);
    assert forall|i: int, j: int| 0 <= i < j < after.len() implies before(
        (#[trigger] after[i]).0,
        (#[trigger] after[j]).0,
    ) by {
        let a = if i < at {
            i
        } else {
            i - 1
        };
        let b = if j < at {
            j
        } else {
            j - 1
        };
        if i == at {
            assert(after[j] == pairs[b]);
            lemma_before_total(pair.0, pairs[b].0);
        } else if j == at {
            assert(after[i] == pairs[i]);
        } else {
            assert(after[i] == pairs[a] && after[j] == pairs[b]);
        }
    }
    assert forall|key: Seq<char>| has_key(after, key) <==> has_key(pairs, key) || key == pair.0 by {
        if has_key(after, key) {
            let i = choose|i: int| 0 <= i < after.len() && (#[trigger] after[i]).0 == key;
            if i < at {
                assert(pairs[i].0 == key);
            } else if i > at {
                assert(pairs[i - 1].0 == key);
            }
        }
        if has_key(pairs, key) {
            let i = choose|i: int| 0 <= i < pairs.len() && (#[trigger] pairs[i]).0 == key;
            if i < at {
                assert(after[i].0 == key);
            } else {
                assert(after[i + 1].0 == key);
            }
        }
        if key == pair.0 {
            assert(after[at].0 == key);
        }
    }
    assert forall|key: Seq<char>| has_key(after, key) implies contents(after)[key] == contents(
        pairs,
    ).insert(pair.0, pair.1)[key] by {
        let i = choose|i: int| 0 <= i < after.len() && (#[trigger] after[i]).0 == key;
        lemma_contents(after, i);
        if i < at {
            lemma_contents(pairs, i);
        } else if i > at {
            lemma_contents(pairs, i - 1);
        }
    }
    assert(contents(after) =~= contents(pairs).insert(pair.0, pair.1));
}

proof fn lemma_contents_remove(pairs: Pairs, at: int)
    requires
        ascending(pairs),
        0 <= at < pairs.len(),
    ensures
        ascending(pairs.remove(at)),
        contents(pairs.remove(at)) == contents(pairs).remove(pairs[at].0),
{
    let after = pairs.remove(at);
    assert forall|i: int| 0 <= i < after.len() implies #[trigger] after[i] == pairs[if i < at {
        i
    } else {
        i + 1
    }] by {}
    assert(ascending(after));
    assert forall|key: Seq<char>|
        has_key(after, key) <==> has_key(pairs, key) && key != pairs[at].0 by {
        if has_key(after, key) {
            let i = choose|i: int| 0 <= i < after.len() && (#[trigger] after[i]).0 == key;
            let k = if i < at {
                i
            } else {
                i + 1
            };
            assert(pairs[k].0 == key);
            if key == pairs[at].0 {
                lemma_before_irreflexive(key);
            }
        }
        if has_key(pairs, key) && key != pairs[at].0 {
            let i = choose|i: int| 0 <= i < pairs.len() && (#[trigger] pairs[i]).0 == key;
            if i < at {
                assert(after[i].0 == key);
            } else {
                assert(after[i - 1].0 == key);
            }
        }
    }
    assert forall|key: Seq<char>| has_key(after, key) implies contents(after)[key] == contents(
        pairs,
    )[key] by {
        let i = choose|i: int| 0 <= i < after.len() && (#[trigger] after[i]).0 == key;
        lemma_contents(after, i);
        lemma_contents(
            pairs,
            if i < at {
                i
            } else {
                i + 1
            },
        );
    }
    assert(contents(after) =~= contents(pairs).remove(pairs[at].0));
}

/// A scan lists every pair whose key starts with the prefix, and no other, in ascending order.
pub proof fn law_scan_lists_the_prefix(pairs: Pairs, prefix: Seq<char>, key: Seq<char>)
    requires
        ascending(pairs),
    ensures
        ({
            let found = pairs.filter(|p: (Seq<char>, Seq<char>)| prefix.is_prefix_of(p.0));
            &&& ascending(found)
            &&& contents(pairs).contains_key(key) && prefix.is_prefix_of(key) ==> found.contains(
                (key, contents(pairs)[key]),
            )
            &&& forall|i: int|
                0 <= i < found.len() ==> prefix.is_prefix_of((#[trigger] found[i]).0) && contents(
                    pairs,
                ).contains_key(found[i].0) && contents(pairs)[found[i].0] == found[i].1
        }),
{
    let listed = |p: (Seq<char>, Seq<char>)| prefix.is_prefix_of(p.0);
    let found = pairs.filter(listed);
    lemma_filter_ascends(pairs, listed);
    if contents(pairs).contains_key(key) && prefix.is_prefix_of(key) {
        let i = key_position(pairs, key);
        assert(has_key(pairs, key));
        assert(pairs[i] == (key, contents(pairs)[key]));
        assert(listed(pairs[i]));
        pairs.lemma_filter_contains(listed, i);
        assert(found.contains(pairs[i]));
    }
    assert forall|i: int| 0 <= i < found.len() implies prefix.is_prefix_of(
        (#[trigger] found[i]).0,
    ) && contents(pairs).contains_key(found[i].0) && contents(pairs)[found[i].0]
        == found[i].1 by {
        pairs.lemma_filter_pred(listed, i);
        assert(listed(found[i]));
        assert(found.contains(found[i]));
        pairs.lemma_filter_contains_rev(listed, found[i]);
        let j = choose|j: int| 0 <= j < pairs.len() && pairs[j] == found[i];
        lemma_contents(pairs, j);
    }
}

proof fn lemma_filter_ascends(pairs: Pairs, listed: spec_fn((Seq<char>, Seq<char>)) -> bool)
    requires
        ascending(pairs),
    ensures
        ascending(pairs.filter(listed)),
    decreases pairs.len(),
{
    reveal(Seq::filter);
    if pairs.len() > 0 {
        let rest = pairs.drop_last();
        let last = pairs[pairs.len() - 1];
        assert(ascending(rest)) by {
            assert forall|i: int, j: int| 0 <= i < j < rest.len() implies before(
                (#[trigger] rest[i]).0,
                (#[trigger] rest[j]).0,
            ) by {
                assert(before(pairs[i].0, pairs[j].0));
            }
        }
        lemma_filter_ascends(rest, listed);
        let kept = rest.filter(listed);
        let all = pairs.filter(listed);
        assert forall|i: int, j: int| 0 <= i < j < all.len() implies before(
            (#[trigger] all[i]).0,
            (#[trigger] all[j]).0,
        ) by {
            if j < kept.len() {
                assert(before(kept[i].0, kept[j].0));
            } else {
                assert(all[j] == last);
                assert(all[i] == kept[i]);
                assert(kept.contains(kept[i]));
                rest.lemma_filter_contains_rev(listed, kept[i]);
                let k = choose|k: int| 0 <= k < rest.len() && rest[k] == kept[i];
                assert(before(pairs[k].0, pairs[pairs.len() - 1].0));
            }
        }
    }
}

/// A command is written as an object whose one member is named after it, with the key and the
/// value as texts.
pub proof fn law_commands_are_written_by_name(key: Seq<char>, value: Seq<char>)
    ensures
        command_json(CommandView::Put { key, value }) == JsonView::Object(
            seq![
                (
                    "Set"@,
                    JsonView::Object(
                        seq![("key"@, JsonView::Text(key)), ("value"@, JsonView::Text(value))],
                    ),
                ),
            ],
        ),
        command_json(CommandView::Delete { key }) == JsonView::Object(
            seq![("Delete"@, JsonView::Object(seq![("key"@, JsonView::Text(key))]))],
        ),
{
}

/// A command is read whatever the order of its fields, and fields that it does not have are passed
/// over.
pub proof fn law_commands_are_read_by_field(
    fields: Seq<(Seq<char>, JsonView)>,
    key: Seq<char>,
    value: Seq<char>,
)
    requires
        find_member(fields, "key"@) == Some(JsonView::Text(key)),
    ensures
        find_member(fields, "value"@) == Some(JsonView::Text(value)) ==> command_of(
            JsonView::Object(seq![("Set"@, JsonView::Object(fields))]),
        ) == Some(CommandView::Put { key, value }),
        find_member(fields, "value"@) is None ==> command_of(
            JsonView::Object(seq![("Set"@, JsonView::Object(fields))]),
        ) is None,
        command_of(JsonView::Object(seq![("Delete"@, JsonView::Object(fields))])) == Some(
            CommandView::Delete { key },
        ),
{
    reveal_strlit("Set");
    reveal_strlit("Delete");
    assert("Set"@.len() == 3 && "Delete"@.len() == 6);
}

} // verus!
