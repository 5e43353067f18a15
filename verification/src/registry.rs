//! The lookup table from keys to backends.
//!
//! Every backend is entered twice, under the decimal form of its identifier
//! and under its name. A key holds one backend at a time: entering a backend
//! under a key that is taken replaces the earlier one.
//!
//! The table is a vector of entries in the order of their keys' bytes, so
//! that a lookup halves its range with each comparison. The order is the
//! library's own ([`crate::order`]), proved irreflexive and transitive: the
//! proofs of the table rest on nothing else about its keys.
use vstd::prelude::*;
use vstd::string::*;
use vstd::utf8::{encode_utf8, encode_utf8_decode_utf8};
use crate::node::{Node, NodeModel};
use crate::order::{lemma_irreflexive, lemma_transitive, precedes, rank_bytes, Rank};
use crate::text::{decimal, decimal_string};

verus! {

#[derive(Debug)]
struct Entry {
    key: String,
    node: Node,
}

/// A table from keys to backends, read-only once it is built.
#[derive(Debug)]
pub struct Registry {
    entries: Vec<Entry>,
}

spec fn table_of(entries: Seq<Entry>) -> Map<Seq<char>, NodeModel>
    decreases entries.len(),
{
    if entries.len() == 0 {
        Map::empty()
    } else {
        table_of(entries.drop_last()).insert(entries.last().key@, entries.last().node@)
    }
}

spec fn distinct_keys(entries: Seq<Entry>) -> bool {
    forall|i: int, j: int| 0 <= i < j < entries.len() ==> entries[i].key@ != entries[j].key@
}

spec fn key_bytes(entry: Entry) -> Seq<u8> {
    encode_utf8(entry.key@)
}

spec fn sorted(entries: Seq<Entry>) -> bool {
    forall|i: int, j: int|
        0 <= i < j < entries.len() ==> precedes(
            #[trigger] key_bytes(entries[i]),
            #[trigger] key_bytes(entries[j]),
        )
}

proof fn lemma_same_bytes(left: Seq<char>, right: Seq<char>)
    requires
        encode_utf8(left) == encode_utf8(right),
    ensures
        left == right,
{
    encode_utf8_decode_utf8(left);
    encode_utf8_decode_utf8(right);
}

proof fn lemma_sorted_distinct(entries: Seq<Entry>)
    requires
        sorted(entries),
    ensures
        distinct_keys(entries),
{
    assert forall|i: int, j: int| 0 <= i < j < entries.len() implies entries[i].key@
        != entries[j].key@ by {
        assert(precedes(key_bytes(entries[i]), key_bytes(entries[j])));
        lemma_irreflexive(key_bytes(entries[i]), 0);
    }
}

proof fn lemma_table(entries: Seq<Entry>)
    requires
        distinct_keys(entries),
    ensures
        table_of(entries).dom().finite(),
        table_of(entries).dom().len() == entries.len(),
        forall|i: int|
            0 <= i < entries.len() ==> table_of(entries).contains_key(#[trigger] entries[i].key@)
                && table_of(entries)[entries[i].key@] == entries[i].node@,
        forall|k: Seq<char>| #[trigger]
            table_of(entries).contains_key(k) ==> exists|i: int|
                0 <= i < entries.len() && #[trigger] entries[i].key@ == k,
    decreases entries.len(),
{
    if entries.len() > 0 {
        let front = entries.drop_last();
        let last = entries.last();
        lemma_table(front);
        assert forall|i: int| 0 <= i < front.len() implies front[i].key@ != last.key@ by {
            assert(front[i] == entries[i]);
        }
        assert(!table_of(front).contains_key(last.key@));
        assert forall|i: int| 0 <= i < entries.len() implies table_of(entries).contains_key(
            #[trigger] entries[i].key@,
        ) && table_of(entries)[entries[i].key@] == entries[i].node@ by {
            if i < front.len() {
                assert(front[i] == entries[i]);
            }
        }
        assert forall|k: Seq<char>| #[trigger] table_of(entries).contains_key(k) implies exists|
            i: int,
        |
            0 <= i < entries.len() && #[trigger] entries[i].key@ == k by {
            if k == last.key@ {
                assert(entries[entries.len() - 1].key@ == k);
            } else {
                assert(table_of(front).contains_key(k));
                let i = choose|i: int| 0 <= i < front.len() && #[trigger] front[i].key@ == k;
                assert(entries[i].key@ == k);
            }
        }
    }
}

proof fn lemma_replace(entries: Seq<Entry>, at: int, entry: Entry)
    requires
        sorted(entries),
        0 <= at < entries.len(),
        entry.key@ == entries[at].key@,
    ensures
        sorted(entries.update(at, entry)),
        table_of(entries.update(at, entry)) == table_of(entries).insert(entry.key@, entry.node@),
{
    let after = entries.update(at, entry);
    assert forall|i: int, j: int| 0 <= i < j < after.len() implies precedes(
        #[trigger] key_bytes(after[i]),
        #[trigger] key_bytes(after[j]),
    ) by {
        assert(key_bytes(after[i]) == key_bytes(entries[i]));
        assert(key_bytes(after[j]) == key_bytes(entries[j]));
    }
    lemma_sorted_distinct(entries);
    lemma_sorted_distinct(after);
    lemma_table(entries);
    lemma_table(after);
    let left = table_of(after);
    let right = table_of(entries).insert(entry.key@, entry.node@);
    assert forall|k: Seq<char>| left.contains_key(k) <==> right.contains_key(k) by {
        if left.contains_key(k) {
            let i = choose|i: int| 0 <= i < after.len() && #[trigger] after[i].key@ == k;
            assert(entries[i].key@ == k);
        }
        if right.contains_key(k) && k != entry.key@ {
            let i = choose|i: int| 0 <= i < entries.len() && #[trigger] entries[i].key@ == k;
            assert(after[i].key@ == k);
        }
        if k == entry.key@ {
            assert(after[at].key@ == k);
        }
    }
    assert forall|k: Seq<char>| left.contains_key(k) implies left[k] == right[k] by {
        let i = choose|i: int| 0 <= i < after.len() && #[trigger] after[i].key@ == k;
        assert(left[after[i].key@] == after[i].node@);
        if i != at {
            assert(after[i] == entries[i]);
            assert(table_of(entries)[entries[i].key@] == entries[i].node@);
        }
    }
    assert(left =~= right);
}

proof fn lemma_insert_at(entries: Seq<Entry>, at: int, entry: Entry)
    requires
        sorted(entries),
        0 <= at <= entries.len(),
        forall|i: int| 0 <= i < at ==> precedes(#[trigger] key_bytes(entries[i]), key_bytes(entry)),
        forall|i: int|
            at <= i < entries.len() ==> precedes(key_bytes(entry), #[trigger] key_bytes(entries[i])),
    ensures
        sorted(entries.insert(at, entry)),
        table_of(entries.insert(at, entry)) == table_of(entries).insert(entry.key@, entry.node@),
{
    let after = entries.insert(at, entry);
    assert forall|i: int, j: int| 0 <= i < j < after.len() implies precedes(
        #[trigger] key_bytes(after[i]),
        #[trigger] key_bytes(after[j]),
    ) by {
        let from_i = if i < at {
            i
        } else {
            i - 1
        };
        let from_j = if j < at {
            j
        } else {
            j - 1
        };
        if i != at {
            assert(after[i] == entries[from_i]);
        }
        if j != at {
            assert(after[j] == entries[from_j]);
        }
        if i != at && j != at {
            assert(precedes(key_bytes(entries[from_i]), key_bytes(entries[from_j])));
        }
    }
    lemma_sorted_distinct(entries);
    lemma_sorted_distinct(after);
    lemma_table(entries);
    lemma_table(after);
    let left = table_of(after);
    let right = table_of(entries).insert(entry.key@, entry.node@);
    assert(after[at] == entry);
    assert forall|k: Seq<char>| left.contains_key(k) <==> right.contains_key(k) by {
        if left.contains_key(k) && k != entry.key@ {
            let i = choose|i: int| 0 <= i < after.len() && #[trigger] after[i].key@ == k;
            if i < at {
                assert(entries[i].key@ == k);
            } else {
                assert(entries[i - 1].key@ == k);
            }
        }
        if right.contains_key(k) && k != entry.key@ {
            let i = choose|i: int| 0 <= i < entries.len() && #[trigger] entries[i].key@ == k;
            if i < at {
                assert(after[i].key@ == k);
            } else {
                assert(after[i + 1].key@ == k);
            }
        }
        if k == entry.key@ {
            assert(after[at].key@ == k);
        }
    }
    assert forall|k: Seq<char>| left.contains_key(k) implies left[k] == right[k] by {
        let i = choose|i: int| 0 <= i < after.len() && #[trigger] after[i].key@ == k;
        assert(left[after[i].key@] == after[i].node@);
        if i < at {
            assert(after[i] == entries[i]);
            assert(table_of(entries)[entries[i].key@] == entries[i].node@);
        } else if i > at {
            assert(after[i] == entries[i - 1]);
            assert(table_of(entries)[entries[i - 1].key@] == entries[i - 1].node@);
        }
    }
    assert(left =~= right);
}

proof fn lemma_same_table(left: Seq<Entry>, right: Seq<Entry>)
    requires
        left.len() == right.len(),
        forall|i: int|
            0 <= i < left.len() ==> left[i].key@ == right[i].key@ && left[i].node@ == right[i].node@,
    ensures
        table_of(left) == table_of(right),
        sorted(left) ==> sorted(right),
    decreases left.len(),
{
    if left.len() > 0 {
        lemma_same_table(left.drop_last(), right.drop_last());
    }
    if sorted(left) {
        assert forall|i: int, j: int| 0 <= i < j < right.len() implies precedes(
            #[trigger] key_bytes(right[i]),
            #[trigger] key_bytes(right[j]),
        ) by {
            assert(key_bytes(right[i]) == key_bytes(left[i]));
            assert(key_bytes(right[j]) == key_bytes(left[j]));
        }
    }
}

impl Clone for Registry {
    fn clone(&self) -> (copy: Self)
        ensures
            copy@ == self@,
    {
        let mut entries: Vec<Entry> = Vec::new();
        let mut at: usize = 0;
        while at < self.entries.len()
            invariant
                at <= self.entries@.len(),
                entries@.len() == at,
                forall|i: int|
                    0 <= i < at ==> entries@[i].key@ == self.entries@[i].key@ && entries@[i].node@
                        == self.entries@[i].node@,
            decreases self.entries@.len() - at,
        {
            let entry = &self.entries[at];
            entries.push(Entry { key: entry.key.clone(), node: entry.node.clone() });
            at += 1;
        }
        proof {
            use_type_invariant(self);
            lemma_same_table(self.entries@, entries@);
        }
        Registry { entries }
    }
}

impl View for Registry {
    type V = Map<Seq<char>, NodeModel>;

    closed spec fn view(&self) -> Map<Seq<char>, NodeModel> {
        table_of(self.entries@)
    }
}

impl Registry {
    #[verifier::type_invariant]
    spec fn well_formed(&self) -> bool {
        sorted(self.entries@)
    }

    /// The registry without any backend.
    pub fn new() -> (registry: Registry)
        ensures
            registry@ == Map::<Seq<char>, NodeModel>::empty(),
    {
        Registry { entries: Vec::new() }
    }

    /// The number of keys.
    pub fn len(&self) -> (count: usize)
        ensures
            count == self@.len(),
            self@.dom().finite(),
    {
        proof {
            use_type_invariant(self);
            lemma_sorted_distinct(self.entries@);
            lemma_table(self.entries@);
        }
        self.entries.len()
    }

    /// Whether the registry holds no key.
    pub fn is_empty(&self) -> (empty: bool)
        ensures
            empty == (self@.len() == 0),
            empty == (self@ == Map::<Seq<char>, NodeModel>::empty()),
            self@.dom().finite(),
    {
        proof {
            use_type_invariant(self);
            lemma_sorted_distinct(self.entries@);
            lemma_table(self.entries@);
            if self.entries@.len() == 0 {
                assert(self@ =~= Map::<Seq<char>, NodeModel>::empty());
            }
        }
        self.entries.len() == 0
    }

    /// Where `key` stands among the entries: the position that holds it, or
    /// the position at which it would have to be entered.
    fn search(&self, key: &str) -> (found: Result<usize, usize>)
        ensures
            match found {
                Ok(at) => at < self.entries@.len() && self.entries@[at as int].key@ == key@,
                Err(at) => {
                    &&& at <= self.entries@.len()
                    &&& !self@.contains_key(key@)
                    &&& forall|i: int|
                        0 <= i < at ==> precedes(
                            #[trigger] key_bytes(self.entries@[i]),
                            encode_utf8(key@),
                        )
                    &&& forall|i: int|
                        at <= i < self.entries@.len() ==> precedes(
                            encode_utf8(key@),
                            #[trigger] key_bytes(self.entries@[i]),
                        )
                },
            },
    {
        proof {
            use_type_invariant(self);
            lemma_sorted_distinct(self.entries@);
            lemma_table(self.entries@);
        }
        let probe = key.as_bytes();
        let mut low: usize = 0;
        let mut high: usize = self.entries.len();
        while low < high
            invariant
                low <= high <= self.entries@.len(),
                sorted(self.entries@),
                probe@ == encode_utf8(key@),
                forall|i: int|
                    0 <= i < low ==> precedes(#[trigger] key_bytes(self.entries@[i]), probe@),
                forall|i: int|
                    high <= i < self.entries@.len() ==> precedes(
                        probe@,
                        #[trigger] key_bytes(self.entries@[i]),
                    ),
            decreases high - low,
        {
            let middle = low + (high - low) / 2;
            let held = self.entries[middle].key.as_str().as_bytes();
            assert(held@ == key_bytes(self.entries@[middle as int]));
            match rank_bytes(held, probe) {
                Rank::Same => {
                    proof {
                        lemma_same_bytes(self.entries@[middle as int].key@, key@);
                    }
                    return Ok(middle);
                },
                Rank::Before => {
                    proof {
                        assert forall|i: int| 0 <= i < middle + 1 implies precedes(
                            #[trigger] key_bytes(self.entries@[i]),
                            probe@,
                        ) by {
                            if i < middle {
                                assert(precedes(
                                    key_bytes(self.entries@[i]),
                                    key_bytes(self.entries@[middle as int]),
                                ));
                                lemma_transitive(key_bytes(self.entries@[i]), held@, probe@, 0);
                            }
                        }
                    }
                    low = middle + 1;
                },
                Rank::After => {
                    proof {
                        assert forall|i: int| middle <= i < self.entries@.len() implies precedes(
                            probe@,
                            #[trigger] key_bytes(self.entries@[i]),
                        ) by {
                            if i > middle {
                                assert(precedes(
                                    key_bytes(self.entries@[middle as int]),
                                    key_bytes(self.entries@[i]),
                                ));
                                lemma_transitive(probe@, held@, key_bytes(self.entries@[i]), 0);
                            }
                        }
                    }
                    high = middle;
                },
            }
        }
        proof {
            if self@.contains_key(key@) {
                let i = choose|i: int|
                    0 <= i < self.entries@.len() && #[trigger] self.entries@[i].key@ == key@;
                assert(key_bytes(self.entries@[i]) == probe@);
                lemma_irreflexive(probe@, 0);
            }
        }
        Err(low)
    }

    /// The backend that `key` resolves to, if any.
    pub fn lookup(&self, key: &str) -> (found: Option<&Node>)
        ensures
            match found {
                Some(node) => self@.contains_key(key@) && self@[key@] == node@,
                None => !self@.contains_key(key@),
            },
    {
        match self.search(key) {
            Ok(at) => {
                proof {
                    use_type_invariant(self);
                    lemma_sorted_distinct(self.entries@);
                    lemma_table(self.entries@);
                    assert(self@[self.entries@[at as int].key@] == self.entries@[at as int].node@);
                }
                Some(&self.entries[at].node)
            },
            Err(_) => None,
        }
    }

    /// The registry with `node` under `key`, in place of the backend that
    /// `key` held.
    pub(crate) fn insert(self, key: String, node: Node) -> (after: Registry)
        ensures
            after@ == self@.insert(key@, node@),
    {
        let found = self.search(key.as_str());
        let entry = Entry { key, node };
        proof {
            use_type_invariant(&self);
        }
        let mut entries = self.entries;
        match found {
            Ok(at) => {
                proof {
                    lemma_replace(entries@, at as int, entry);
                }
                entries.set(at, entry);
            },
            Err(at) => {
                proof {
                    lemma_insert_at(entries@, at as int, entry);
                }
                entries.insert(at, entry);
            },
        }
        Registry { entries }
    }

    /// The registry with `node` entered under the decimal form of its
    /// identifier and then under its name.
    pub(crate) fn register(self, node: Node) -> (after: Registry)
        ensures
            after@ == registered(self@, node@),
    {
        let by_id = decimal_string(node.id);
        let by_name = node.name.clone();
        let twin = node.clone();
        self.insert(by_id, twin).insert(by_name, node)
    }
}

/// The table `table` after `node` was entered under both of its keys.
pub open spec fn registered(table: Map<Seq<char>, NodeModel>, node: NodeModel) -> Map<
    Seq<char>,
    NodeModel,
> {
    table.insert(decimal(node.id as nat), node).insert(node.name, node)
}

} // verus!
