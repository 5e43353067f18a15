//! What holds of every decoding: which error comes first, which keys the
//! registry has, and which backend each key resolves to.
use vstd::prelude::*;
use crate::config::{
    all_resolve, auth_decision, blames, config_decision, DecodeFailure, lemma_first_error_stands, lemma_nodes_decision_step,
    node_decision, nodes_decision, present_at, ConfigModel, DescriptorModel, DocumentModel,
};
use crate::error::ConfigError;
use crate::node::{AuthModel, NodeModel, MAX_NAME_CHARS};
use crate::text::{decimal, lemma_decimal_injective};

verus! {

/// The key at `position` among the keys of `descriptors`: every backend has
/// two in a row, the decimal form of its identifier and then its name.
pub open spec fn key_at(descriptors: Seq<DescriptorModel>, position: int) -> Seq<char> {
    if position % 2 == 0 {
        decimal(descriptors[position / 2].id as nat)
    } else {
        descriptors[position / 2].name
    }
}

/// The keys under which the backends `descriptors` are entered, in the order
/// in which they are entered.
pub open spec fn keys_of(descriptors: Seq<DescriptorModel>) -> Seq<Seq<char>> {
    Seq::new((2 * descriptors.len()) as nat, |position: int| key_at(descriptors, position))
}

/// Whether `key` is one of the two keys of `descriptor`.
pub open spec fn has_key(descriptor: DescriptorModel, key: Seq<char>) -> bool {
    key == decimal(descriptor.id as nat) || key == descriptor.name
}

/// A backend with a user and a password and no cookie file authenticates by
/// them; one with a cookie file that exists authenticates by the file,
/// whatever else it declares.
pub proof fn law_auth_variants(descriptor: DescriptorModel, cookie_present: bool)
    ensures
        descriptor.cookie_file matches Some(path) ==> auth_decision(descriptor, true) == Ok::<
            AuthModel,
            ConfigError,
        >(AuthModel::CookieFile(path)),
        descriptor.cookie_file is None && descriptor.user is Some && descriptor.password is Some
            ==> auth_decision(descriptor, cookie_present) == Ok::<AuthModel, ConfigError>(
            AuthModel::UserPass(descriptor.user->0, descriptor.password->0),
        ),
{
}

/// An authentication is decided exactly for a cookie file that exists and,
/// without a cookie file, for a user together with a password. A cookie file
/// that is missing fails as such; the lack of a user or of a password, where
/// no cookie file is named, fails as no method at all.
pub proof fn law_auth_failures(descriptor: DescriptorModel, cookie_present: bool)
    ensures
        auth_decision(descriptor, cookie_present) == Err::<AuthModel, ConfigError>(
            ConfigError::CookieFileMissing,
        ) <==> descriptor.cookie_file is Some && !cookie_present,
        auth_decision(descriptor, cookie_present) == Err::<AuthModel, ConfigError>(
            ConfigError::NoAuthMethod,
        ) <==> descriptor.cookie_file is None && (descriptor.user is None
            || descriptor.password is None),
        auth_decision(descriptor, cookie_present) is Ok <==> (descriptor.cookie_file is Some
            && cookie_present) || (descriptor.cookie_file is None && descriptor.user is Some
            && descriptor.password is Some),
{
}

/// A backend fails on its name exactly where the name is over the limit, and
/// then whatever its authentication would be.
pub proof fn law_name_limit(descriptor: DescriptorModel, cookie_present: bool)
    ensures
        node_decision(descriptor, cookie_present) == Err::<NodeModel, ConfigError>(
            ConfigError::NameTooLong,
        ) <==> descriptor.name.len() > MAX_NAME_CHARS,
{
}

/// The backends resolve to a registry exactly where each of them resolves.
pub proof fn lemma_resolving(descriptors: Seq<DescriptorModel>, present: Seq<bool>)
    ensures
        nodes_decision(descriptors, present) is Ok <==> all_resolve(descriptors, present),
    decreases descriptors.len(),
{
    if descriptors.len() > 0 {
        let front = descriptors.drop_last();
        lemma_resolving(front, present);
        if all_resolve(descriptors, present) {
            assert forall|i: int| 0 <= i < front.len() implies (#[trigger] node_decision(
                front[i],
                present_at(present, i),
            )) is Ok by {
                assert(front[i] == descriptors[i]);
                assert(node_decision(descriptors[i], present_at(present, i)) is Ok);
            }
            assert(node_decision(
                descriptors[descriptors.len() - 1],
                present_at(present, descriptors.len() - 1),
            ) is Ok);
        }
        if nodes_decision(descriptors, present) is Ok {
            assert forall|i: int| 0 <= i < descriptors.len() implies (#[trigger] node_decision(
                descriptors[i],
                present_at(present, i),
            )) is Ok by {
                if i < front.len() {
                    assert(front[i] == descriptors[i]);
                    assert(node_decision(front[i], present_at(present, i)) is Ok);
                }
            }
        }
    }
}

/// Decoding fails with the error of the first backend that does not resolve.
pub proof fn law_first_failure(
    document: DocumentModel,
    present: Seq<bool>,
    at: int,
)
    requires
        0 <= at < document.nodes.len(),
        forall|i: int|
            0 <= i < at ==> (#[trigger] node_decision(document.nodes[i], present_at(present, i)))
                is Ok,
        node_decision(document.nodes[at], present_at(present, at)) is Err,
    ensures
        config_decision(document, present) == Err::<ConfigModel, ConfigError>(
            node_decision(document.nodes[at], present_at(present, at))->Err_0,
        ),
{
    let before = document.nodes.take(at);
    assert forall|i: int| 0 <= i < before.len() implies (#[trigger] node_decision(
        before[i],
        present_at(present, i),
    )) is Ok by {
        assert(before[i] == document.nodes[i]);
        assert(node_decision(document.nodes[i], present_at(present, i)) is Ok);
    }
    lemma_resolving(before, present);
    lemma_nodes_decision_step(document.nodes, present, at);
    lemma_first_error_stands(document.nodes, present, at + 1);
}

/// A failure that points at a backend fixes the result of the decoding: it
/// is that backend's error. One that points at no backend leaves the two
/// errors that are about the document as a whole.
pub proof fn law_blamed_backend(
    document: DocumentModel,
    present: Seq<bool>,
    failure: DecodeFailure,
)
    requires
        blames(document.nodes, present, failure),
        config_decision(document, present) is Err,
    ensures
        failure.backend is Some ==> config_decision(document, present) == Err::<
            ConfigModel,
            ConfigError,
        >(failure.error),
        failure.backend is None ==> config_decision(document, present) == Err::<
            ConfigModel,
            ConfigError,
        >(
            if document.nodes.len() == 0 {
                ConfigError::NoNodes
            } else {
                ConfigError::InvalidAddress
            },
        ),
{
    match failure.backend {
        Some(at) => {
            law_first_failure(document, present, at as int);
        },
        None => {
            lemma_resolving(document.nodes, present);
        },
    }
}

/// A document without a backend is turned down for that, whatever its
/// address.
pub proof fn law_no_backends(
    document: DocumentModel,
    present: Seq<bool>,
)
    requires
        document.nodes.len() == 0,
    ensures
        config_decision(document, present) == Err::<ConfigModel, ConfigError>(
            ConfigError::NoNodes,
        ),
{
}

/// Where every backend resolves and there is at least one, the listen
/// address decides: without one decoding fails on the address, with one it
/// succeeds and keeps the address and the static root.
pub proof fn law_address_decides(
    document: DocumentModel,
    present: Seq<bool>,
)
    requires
        document.nodes.len() > 0,
        all_resolve(document.nodes, present),
    ensures
        document.address is None ==> config_decision(document, present) == Err::<
            ConfigModel,
            ConfigError,
        >(ConfigError::InvalidAddress),
        document.address matches Some(address) ==> (config_decision(document, present) matches Ok(config) && config.listen_address == address && config.static_root
            == document.www_path && Ok::<Map<Seq<char>, NodeModel>, ConfigError>(config.nodes)
            == nodes_decision(document.nodes, present)),
{
    lemma_resolving(document.nodes, present);
}

/// Decoding succeeds exactly where every backend resolves, there is at least
/// one, and the listen address parsed; the registry of the configuration is
/// then the one that the backends resolve to, and it is not empty.
pub proof fn law_success(document: DocumentModel, present: Seq<bool>)
    ensures
        config_decision(document, present) is Ok <==> all_resolve(document.nodes, present)
            && document.nodes.len() > 0 && document.address is Some,
        config_decision(document, present) matches Ok(config) ==> nodes_decision(
            document.nodes,
            present,
        ) == Ok::<Map<Seq<char>, NodeModel>, ConfigError>(config.nodes)
            && config.nodes.dom().finite() && config.nodes.len() > 0,
{
    lemma_resolving(document.nodes, present);
    if config_decision(document, present) is Ok {
        law_registry_keys(document.nodes, present);
        let keys = keys_of(document.nodes);
        assert(keys[0] == key_at(document.nodes, 0));
        assert(keys.to_set().contains(keys[0]));
    }
}

/// The registry holds the keys of the backends and no other key.
pub proof fn law_registry_keys(descriptors: Seq<DescriptorModel>, present: Seq<bool>)
    requires
        nodes_decision(descriptors, present) is Ok,
    ensures
        nodes_decision(descriptors, present)->Ok_0.dom() == keys_of(descriptors).to_set(),
        nodes_decision(descriptors, present)->Ok_0.dom().finite(),
    decreases descriptors.len(),
{
    let table = nodes_decision(descriptors, present)->Ok_0;
    let keys = keys_of(descriptors);
    if descriptors.len() == 0 {
        assert(table.dom() =~= keys.to_set());
    } else {
        let front = descriptors.drop_last();
        let last = descriptors.last();
        let count = front.len() as int;
        law_registry_keys(front, present);
        let before = nodes_decision(front, present)->Ok_0;
        let front_keys = keys_of(front);
        assert forall|k: Seq<char>| table.dom().contains(k) <==> keys.to_set().contains(k) by {
            if table.dom().contains(k) {
                if k == last.name {
                    assert(keys[2 * count + 1] == k);
                } else if k == decimal(last.id as nat) {
                    assert(keys[2 * count] == k);
                } else {
                    assert(front_keys.to_set().contains(k));
                    let p = choose|p: int| 0 <= p < front_keys.len() && front_keys[p] == k;
                    assert(front[p / 2] == descriptors[p / 2]);
                    assert(keys[p] == k);
                }
            }
            if keys.to_set().contains(k) {
                let p = choose|p: int| 0 <= p < keys.len() && keys[p] == k;
                if p < 2 * count {
                    assert(front[p / 2] == descriptors[p / 2]);
                    assert(front_keys[p] == k);
                    assert(front_keys.to_set().contains(k));
                }
            }
        }
        assert(table.dom() =~= keys.to_set());
    }
}

/// The registry has at most two entries for each backend.
pub proof fn law_at_most_two_each(descriptors: Seq<DescriptorModel>, present: Seq<bool>)
    requires
        nodes_decision(descriptors, present) is Ok,
    ensures
        nodes_decision(descriptors, present)->Ok_0.len() <= 2 * descriptors.len(),
{
    law_registry_keys(descriptors, present);
    keys_of(descriptors).lemma_cardinality_of_set();
}

/// A key resolves to the last backend that has it.
pub proof fn law_last_wins(
    descriptors: Seq<DescriptorModel>,
    present: Seq<bool>,
    at: int,
    key: Seq<char>,
)
    requires
        nodes_decision(descriptors, present) is Ok,
        0 <= at < descriptors.len(),
        has_key(descriptors[at], key),
        forall|later: int| at < later < descriptors.len() ==> !has_key(#[trigger] descriptors[later], key),
    ensures
        nodes_decision(descriptors, present)->Ok_0.contains_key(key),
        Ok::<NodeModel, ConfigError>(nodes_decision(descriptors, present)->Ok_0[key])
            == node_decision(descriptors[at], present_at(present, at)),
    decreases descriptors.len(),
{
    let front = descriptors.drop_last();
    if at < descriptors.len() - 1 {
        assert(front[at] == descriptors[at]);
        assert forall|later: int| at < later < front.len() implies !has_key(
            #[trigger] front[later],
            key,
        ) by {
            assert(front[later] == descriptors[later]);
        }
        assert(!has_key(descriptors[descriptors.len() - 1], key));
        law_last_wins(front, present, at, key);
    }
}

/// A key that no backend has resolves to nothing.
pub proof fn law_unknown_key(descriptors: Seq<DescriptorModel>, present: Seq<bool>, key: Seq<char>)
    requires
        nodes_decision(descriptors, present) is Ok,
        forall|i: int| 0 <= i < descriptors.len() ==> !has_key(#[trigger] descriptors[i], key),
    ensures
        !nodes_decision(descriptors, present)->Ok_0.contains_key(key),
{
    law_registry_keys(descriptors, present);
    let keys = keys_of(descriptors);
    if keys.to_set().contains(key) {
        let p = choose|p: int| 0 <= p < keys.len() && keys[p] == key;
        assert(has_key(descriptors[p / 2], key));
    }
}

/// Whether no two backends share an identifier or a name, and no backend's
/// name reads as the identifier of any backend.
pub open spec fn keys_apart(descriptors: Seq<DescriptorModel>) -> bool {
    &&& forall|i: int, j: int|
        0 <= i < j < descriptors.len() ==> descriptors[i].id != descriptors[j].id
    &&& forall|i: int, j: int|
        0 <= i < j < descriptors.len() ==> descriptors[i].name != descriptors[j].name
    &&& forall|i: int, j: int|
        0 <= i < descriptors.len() && 0 <= j < descriptors.len() ==> descriptors[i].name
            != decimal(descriptors[j].id as nat)
}

/// Backends whose keys are all apart fill the registry with two entries
/// each, and each key resolves to its own backend.
pub proof fn law_two_entries_each(descriptors: Seq<DescriptorModel>, present: Seq<bool>)
    requires
        nodes_decision(descriptors, present) is Ok,
        keys_apart(descriptors),
    ensures
        nodes_decision(descriptors, present)->Ok_0.len() == 2 * descriptors.len(),
        forall|i: int, key: Seq<char>|
            0 <= i < descriptors.len() && has_key(#[trigger] descriptors[i], key) ==> (
            #[trigger] nodes_decision(descriptors, present)->Ok_0.contains_key(key)) && Ok::<
                NodeModel,
                ConfigError,
            >(nodes_decision(descriptors, present)->Ok_0[key]) == node_decision(
                descriptors[i],
                present_at(present, i),
            ),
{
    let keys = keys_of(descriptors);
    assert forall|p: int, q: int| 0 <= p < keys.len() && 0 <= q < keys.len() && p != q implies keys[p]
        != keys[q] by {
        lemma_apart(descriptors, p, q);
    }
    keys.unique_seq_to_set();
    law_registry_keys(descriptors, present);
    assert forall|i: int, key: Seq<char>|
        0 <= i < descriptors.len() && has_key(#[trigger] descriptors[i], key) implies (
    #[trigger] nodes_decision(descriptors, present)->Ok_0.contains_key(key)) && Ok::<
        NodeModel,
        ConfigError,
    >(nodes_decision(descriptors, present)->Ok_0[key]) == node_decision(
        descriptors[i],
        present_at(present, i),
    ) by {
        assert forall|later: int| i < later < descriptors.len() implies !has_key(
            #[trigger] descriptors[later],
            key,
        ) by {
            if key == decimal(descriptors[later].id as nat) && key == decimal(
                descriptors[i].id as nat,
            ) {
                lemma_decimal_injective(descriptors[i].id as nat, descriptors[later].id as nat);
            }
        }
        law_last_wins(descriptors, present, i, key);
    }
}

proof fn lemma_apart(descriptors: Seq<DescriptorModel>, p: int, q: int)
    requires
        keys_apart(descriptors),
        0 <= p < 2 * descriptors.len(),
        0 <= q < 2 * descriptors.len(),
        p != q,
    ensures
        key_at(descriptors, p) != key_at(descriptors, q),
{
    if key_at(descriptors, p) == key_at(descriptors, q) {
        if p % 2 == 0 && q % 2 == 0 {
            lemma_decimal_injective(descriptors[p / 2].id as nat, descriptors[q / 2].id as nat);
            assert(p / 2 != q / 2);
        } else if p % 2 != 0 && q % 2 != 0 {
            assert(p / 2 != q / 2);
        }
    }
}

/// Where exactly two of the keys coincide, at the positions `first` and
/// `second`, the registry has one entry fewer than two for each backend, and
/// the shared key resolves to the backend of the later position.
pub proof fn law_one_shared_key(
    descriptors: Seq<DescriptorModel>,
    present: Seq<bool>,
    first: int,
    second: int,
)
    requires
        nodes_decision(descriptors, present) is Ok,
        0 <= first < second < 2 * descriptors.len(),
        key_at(descriptors, first) == key_at(descriptors, second),
        forall|p: int, q: int|
            0 <= p < q < 2 * descriptors.len() && key_at(descriptors, p) == key_at(descriptors, q)
                ==> p == first && q == second,
    ensures
        nodes_decision(descriptors, present)->Ok_0.len() == 2 * descriptors.len() - 1,
        nodes_decision(descriptors, present)->Ok_0.contains_key(key_at(descriptors, second)),
        Ok::<NodeModel, ConfigError>(
            nodes_decision(descriptors, present)->Ok_0[key_at(descriptors, second)],
        ) == node_decision(descriptors[second / 2], present_at(present, second / 2)),
{
    let keys = keys_of(descriptors);
    let key = key_at(descriptors, second);
    law_registry_keys(descriptors, present);
    lemma_one_repeat(keys, first, second);
    assert forall|later: int| second / 2 < later < descriptors.len() implies !has_key(
        #[trigger] descriptors[later],
        key,
    ) by {
        if key == decimal(descriptors[later].id as nat) {
            assert(key_at(descriptors, 2 * later) == key);
        }
        if key == descriptors[later].name {
            assert(key_at(descriptors, 2 * later + 1) == key);
        }
    }
    law_last_wins(descriptors, present, second / 2, key);
}

/// Where two backends share a name and all other keys are apart, the
/// registry has one entry fewer than two for each backend, and the name
/// resolves to the later of the two.
pub proof fn law_shared_name(
    descriptors: Seq<DescriptorModel>,
    present: Seq<bool>,
    earlier: int,
    later: int,
)
    requires
        nodes_decision(descriptors, present) is Ok,
        0 <= earlier < later < descriptors.len(),
        descriptors[earlier].name == descriptors[later].name,
        forall|i: int, j: int|
            0 <= i < j < descriptors.len() ==> descriptors[i].id != descriptors[j].id,
        forall|i: int, j: int|
            0 <= i < j < descriptors.len() && descriptors[i].name == descriptors[j].name ==> i
                == earlier && j == later,
        forall|i: int, j: int|
            0 <= i < descriptors.len() && 0 <= j < descriptors.len() ==> descriptors[i].name
                != decimal(descriptors[j].id as nat),
    ensures
        nodes_decision(descriptors, present)->Ok_0.len() == 2 * descriptors.len() - 1,
        nodes_decision(descriptors, present)->Ok_0.contains_key(descriptors[later].name),
        Ok::<NodeModel, ConfigError>(
            nodes_decision(descriptors, present)->Ok_0[descriptors[later].name],
        ) == node_decision(descriptors[later], present_at(present, later)),
{
    assert forall|p: int, q: int|
        0 <= p < q < 2 * descriptors.len() && key_at(descriptors, p) == key_at(
            descriptors,
            q,
        ) implies p == 2 * earlier + 1 && q == 2 * later + 1 by {
        if p % 2 == 0 && q % 2 == 0 {
            lemma_decimal_injective(descriptors[p / 2].id as nat, descriptors[q / 2].id as nat);
            assert(p / 2 < q / 2);
        } else if p % 2 != 0 && q % 2 != 0 {
            assert(p / 2 < q / 2);
        }
    }
    assert(key_at(descriptors, 2 * later + 1) == descriptors[later].name);
    assert(key_at(descriptors, 2 * earlier + 1) == descriptors[earlier].name);
    law_one_shared_key(descriptors, present, 2 * earlier + 1, 2 * later + 1);
}

/// Where two backends share an identifier and all other keys are apart, the
/// registry has one entry fewer than two for each backend, and the
/// identifier resolves to the later of the two.
pub proof fn law_shared_id(
    descriptors: Seq<DescriptorModel>,
    present: Seq<bool>,
    earlier: int,
    later: int,
)
    requires
        nodes_decision(descriptors, present) is Ok,
        0 <= earlier < later < descriptors.len(),
        descriptors[earlier].id == descriptors[later].id,
        forall|i: int, j: int|
            0 <= i < j < descriptors.len() && descriptors[i].id == descriptors[j].id ==> i
                == earlier && j == later,
        forall|i: int, j: int|
            0 <= i < j < descriptors.len() ==> descriptors[i].name != descriptors[j].name,
        forall|i: int, j: int|
            0 <= i < descriptors.len() && 0 <= j < descriptors.len() ==> descriptors[i].name
                != decimal(descriptors[j].id as nat),
    ensures
        nodes_decision(descriptors, present)->Ok_0.len() == 2 * descriptors.len() - 1,
        nodes_decision(descriptors, present)->Ok_0.contains_key(
            decimal(descriptors[later].id as nat),
        ),
        Ok::<NodeModel, ConfigError>(
            nodes_decision(descriptors, present)->Ok_0[decimal(descriptors[later].id as nat)],
        ) == node_decision(descriptors[later], present_at(present, later)),
{
    assert forall|p: int, q: int|
        0 <= p < q < 2 * descriptors.len() && key_at(descriptors, p) == key_at(
            descriptors,
            q,
        ) implies p == 2 * earlier && q == 2 * later by {
        if p % 2 == 0 && q % 2 == 0 {
            lemma_decimal_injective(descriptors[p / 2].id as nat, descriptors[q / 2].id as nat);
            assert(p / 2 < q / 2);
        } else if p % 2 != 0 && q % 2 != 0 {
            assert(p / 2 < q / 2);
        }
    }
    assert(key_at(descriptors, 2 * later) == decimal(descriptors[later].id as nat));
    assert(key_at(descriptors, 2 * earlier) == decimal(descriptors[earlier].id as nat));
    law_one_shared_key(descriptors, present, 2 * earlier, 2 * later);
}

proof fn lemma_one_repeat(keys: Seq<Seq<char>>, first: int, second: int)
    requires
        0 <= first < second < keys.len(),
        keys[first] == keys[second],
        forall|p: int, q: int|
            0 <= p < q < keys.len() && keys[p] == keys[q] ==> p == first && q == second,
    ensures
        keys.to_set().len() == keys.len() - 1,
{
    let rest = Seq::new(
        (keys.len() - 1) as nat,
        |p: int|
            if p < second {
                keys[p]
            } else {
                keys[p + 1]
            },
    );
    assert forall|p: int, q: int| 0 <= p < rest.len() && 0 <= q < rest.len() && p != q implies rest[p]
        != rest[q] by {
        let from_p = if p < second {
            p
        } else {
            p + 1
        };
        let from_q = if q < second {
            q
        } else {
            q + 1
        };
        assert(rest[p] == keys[from_p] && rest[q] == keys[from_q]);
        assert(from_p != from_q && from_p != second && from_q != second);
        if from_p < from_q {
            assert(keys[from_p] == keys[from_q] ==> from_q == second);
        } else {
            assert(keys[from_q] == keys[from_p] ==> from_p == second);
        }
    }
    rest.unique_seq_to_set();
    assert forall|k: Seq<char>| rest.to_set().contains(k) <==> keys.to_set().contains(k) by {
        if rest.to_set().contains(k) {
            let p = choose|p: int| 0 <= p < rest.len() && rest[p] == k;
            if p < second {
                assert(keys[p] == k);
            } else {
                assert(keys[p + 1] == k);
            }
        }
        if keys.to_set().contains(k) {
            let p = choose|p: int| 0 <= p < keys.len() && keys[p] == k;
            if p < second {
                assert(rest[p] == k);
            } else if p == second {
                assert(rest[first] == k);
            } else {
                assert(rest[p - 1] == k);
            }
        }
    }
    assert(rest.to_set() =~= keys.to_set());
}

} // verus!
