//! The validators that transactions are sent to.
use vstd::prelude::*;

use crate::config::{all_keys, lemma_all_keys};
use crate::contact::{contact_views, ContactInfo, ContactInfoView};
use crate::keys::{
    contains_key, key_views, optional_key_views, parse_pubkeys, text_pubkey, text_pubkeys,
};
use crate::leader_tracker::{POLL_INTERVAL_SECONDS, POLL_RETRY_SECONDS};
use crate::text::{clone_optional_text, texts};

verus! {

/// The seconds between two looks at the validators' addresses.
pub const VALIDATOR_UPDATE_SECONDS: u64 = 600;

/// Calls `std::time::Instant::now`, which reads the clock. Nothing is said of the reading.
pub assume_specification[ std::time::Instant::now ]() -> (now: std::time::Instant)
;

/// Where a validator can be reached.
pub struct ValidatorInfo {
    pub pubkey: [u8; 32],
    /// The socket address of the validator's TPU port; empty where it has none.
    pub tpu_address: String,
    /// When the address was learned.
    pub last_updated: std::time::Instant,
}

/// The content of a [`ValidatorInfo`] but for the time.
pub struct ValidatorInfoView {
    pub pubkey: Seq<u8>,
    pub tpu_address: Seq<char>,
}

impl View for ValidatorInfo {
    type V = ValidatorInfoView;

    open spec fn view(&self) -> ValidatorInfoView {
        ValidatorInfoView { pubkey: self.pubkey@, tpu_address: self.tpu_address@ }
    }
}

/// The contents of a list of validator infos.
pub open spec fn validator_views(infos: Seq<ValidatorInfo>) -> Seq<ValidatorInfoView> {
    infos.map_values(|info: ValidatorInfo| info@)
}

/// The TPU address of a node, empty where it has none.
pub open spec fn tpu_address(node: ContactInfoView) -> Seq<char> {
    match node.tpu {
        Some(address) => address,
        None => Seq::empty(),
    }
}

/// The nodes whose key is one of the wanted ones, in the order of the nodes. `keys` gives the key
/// of each node; a node without one is passed over.
pub open spec fn wanted_validators(
    nodes: Seq<ContactInfoView>,
    keys: Seq<Option<Seq<u8>>>,
    wanted: Seq<Seq<u8>>,
) -> Seq<ValidatorInfoView>
    decreases nodes.len(),
{
    if nodes.len() == 0 {
        Seq::empty()
    } else {
        let before = wanted_validators(nodes.drop_last(), keys, wanted);
        match keys[nodes.len() - 1] {
            Some(key) => if wanted.contains(key) {
                before.push(
                    ValidatorInfoView { pubkey: key, tpu_address: tpu_address(nodes.last()) },
                )
            } else {
                before
            },
            None => before,
        }
    }
}

/// The public keys of a list of nodes, as texts.
pub open spec fn node_pubkeys(nodes: Seq<ContactInfoView>) -> Seq<Seq<char>> {
    nodes.map_values(|node: ContactInfoView| node.pubkey)
}

/// Picks the nodes whose key is one of the wanted ones.
pub fn select_validators(
    cluster_nodes: &Vec<ContactInfo>,
    keys: &Vec<Option<[u8; 32]>>,
    validator_pubkeys: &Vec<[u8; 32]>,
) -> (infos: Vec<ValidatorInfo>)
    requires
        cluster_nodes@.len() == keys@.len(),
    ensures
        validator_views(infos@) == wanted_validators(
            contact_views(cluster_nodes@),
            optional_key_views(keys@),
            key_views(validator_pubkeys@),
        ),
        have_fields_of_nodes(
            infos@,
            cluster_nodes@,
            optional_key_views(keys@),
            wanted_positions(optional_key_views(keys@), key_views(validator_pubkeys@)),
        ),
{
    let ghost nodes = contact_views(cluster_nodes@);
    let ghost node_keys = optional_key_views(keys@);
    let ghost wanted = key_views(validator_pubkeys@);
    let mut updated_info: Vec<ValidatorInfo> = Vec::new();
    let mut i: usize = 0;
    assert(validator_views(updated_info@) =~= wanted_validators(nodes.take(0), node_keys, wanted));
    while i < cluster_nodes.len()
        invariant
            i <= cluster_nodes@.len(),
            cluster_nodes@.len() == keys@.len(),
            nodes == contact_views(cluster_nodes@),
            node_keys == optional_key_views(keys@),
            wanted == key_views(validator_pubkeys@),
            validator_views(updated_info@) == wanted_validators(
                nodes.take(i as int),
                node_keys,
                wanted,
            ),
        decreases cluster_nodes@.len() - i,
    {
        assert(nodes.take(i + 1).drop_last() =~= nodes.take(i as int));
        if let Some(pubkey) = keys[i] {
            assert(node_keys[i as int] == Some(pubkey@));
            if contains_key(validator_pubkeys, &pubkey) {
                let tpu_address = match clone_optional_text(&cluster_nodes[i].tpu) {
                    Some(address) => address,
                    None => String::new(),
                };
                let info = ValidatorInfo {
                    pubkey,
                    tpu_address,
                    last_updated: std::time::Instant::now(),
                };
                proof {
                    assert(info.tpu_address@ =~= self::tpu_address(nodes[i as int]));
                    updated_info@.lemma_push_map_commute(|info: ValidatorInfo| info@, info);
                }
                updated_info.push(info);
            }
        }
        i = i + 1;
    }
    assert(nodes.take(i as int) =~= nodes);
    proof {
        lemma_picked_validators(nodes, node_keys, wanted);
        lemma_have_fields_of_nodes(
            updated_info@,
            cluster_nodes@,
            node_keys,
            wanted_positions(node_keys, wanted),
        );
    }
    updated_info
}

/// Whether the key at a position is one of the wanted ones.
pub open spec fn is_wanted(keys: Seq<Option<Seq<u8>>>, wanted: Seq<Seq<u8>>) -> spec_fn(int) -> bool {
    |i: int| keys[i] is Some && wanted.contains(keys[i]->0)
}

/// The positions below `n`, in ascending order.
pub open spec fn positions(n: int) -> Seq<int> {
    Seq::new(n as nat, |i: int| i)
}

/// The positions of the wanted keys, in ascending order.
pub open spec fn wanted_positions(keys: Seq<Option<Seq<u8>>>, wanted: Seq<Seq<u8>>) -> Seq<int> {
    positions(keys.len() as int).filter(is_wanted(keys, wanted))
}

/// Whether what is known of a validator comes from the node at a position: it has that node's key, and
/// the node's own TPU address; the address is empty where the node has none.
pub open spec fn is_from_node(
    info: ValidatorInfoView,
    nodes: Seq<ContactInfoView>,
    keys: Seq<Option<Seq<u8>>>,
    at: int,
) -> bool {
    &&& 0 <= at < nodes.len()
    &&& keys[at] == Some(info.pubkey)
    &&& nodes[at].tpu is Some ==> nodes[at].tpu->0 == info.tpu_address
    &&& nodes[at].tpu is None ==> info.tpu_address.len() == 0
}

/// Whether a list of validators comes from the nodes at the given positions, one by one.
pub open spec fn come_from_nodes(
    found: Seq<ValidatorInfoView>,
    nodes: Seq<ContactInfoView>,
    keys: Seq<Option<Seq<u8>>>,
    picked: Seq<int>,
) -> bool {
    &&& found.len() == picked.len()
    &&& forall|k: int|
        0 <= k < found.len() ==> is_from_node(#[trigger] found[k], nodes, keys, picked[k])
}

/// Whether what is known of a validator comes from the node at a position, in terms of their own
/// fields.
pub open spec fn has_fields_of_node(
    info: ValidatorInfo,
    nodes: Seq<ContactInfo>,
    keys: Seq<Option<Seq<u8>>>,
    at: int,
) -> bool {
    &&& 0 <= at < nodes.len()
    &&& keys[at] == Some(info.pubkey@)
    &&& nodes[at].tpu is Some ==> nodes[at].tpu->0@ == info.tpu_address@
    &&& nodes[at].tpu is None ==> info.tpu_address@.len() == 0
}

/// Whether a list of validators comes from the nodes at the given positions, one by one, in terms of
/// their own fields.
pub open spec fn have_fields_of_nodes(
    infos: Seq<ValidatorInfo>,
    nodes: Seq<ContactInfo>,
    keys: Seq<Option<Seq<u8>>>,
    picked: Seq<int>,
) -> bool {
    &&& infos.len() == picked.len()
    &&& forall|k: int|
        0 <= k < infos.len() ==> has_fields_of_node(#[trigger] infos[k], nodes, keys, picked[k])
}

proof fn lemma_have_fields_of_nodes(
    infos: Seq<ValidatorInfo>,
    nodes: Seq<ContactInfo>,
    keys: Seq<Option<Seq<u8>>>,
    picked: Seq<int>,
)
    requires
        come_from_nodes(validator_views(infos), contact_views(nodes), keys, picked),
    ensures
        have_fields_of_nodes(infos, nodes, keys, picked),
{
    let found = validator_views(infos);
    assert(found.len() == infos.len());
    assert forall|k: int| 0 <= k < infos.len() implies has_fields_of_node(
        #[trigger] infos[k],
        nodes,
        keys,
        picked[k],
    ) by {
        assert(is_from_node(found[k], contact_views(nodes), keys, picked[k]));
    }
}

/// There is one validator for each node that has a wanted key, in the order of the nodes. It has that
/// key, and the node's own TPU address; the address is empty where the node has none.
pub proof fn lemma_picked_validators(
    nodes: Seq<ContactInfoView>,
    keys: Seq<Option<Seq<u8>>>,
    wanted: Seq<Seq<u8>>,
)
    requires
        nodes.len() == keys.len(),
    ensures
        come_from_nodes(
            wanted_validators(nodes, keys, wanted),
            nodes,
            keys,
            wanted_positions(keys, wanted),
        ),
{
    lemma_picked_validators_upto(nodes, keys, wanted, nodes.len() as int);
    assert(nodes.take(nodes.len() as int) =~= nodes);
}

proof fn lemma_picked_validators_upto(
    nodes: Seq<ContactInfoView>,
    keys: Seq<Option<Seq<u8>>>,
    wanted: Seq<Seq<u8>>,
    n: int,
)
    requires
        nodes.len() == keys.len(),
        0 <= n <= nodes.len(),
    ensures
        come_from_nodes(
            wanted_validators(nodes.take(n), keys, wanted),
            nodes,
            keys,
            positions(n).filter(is_wanted(keys, wanted)),
        ),
    decreases n,
{
    let all = positions(n);
    let wants = is_wanted(keys, wanted);
    if n == 0 {
        all.lemma_filter_len(wants);
    } else {
        lemma_picked_validators_upto(nodes, keys, wanted, n - 1);
        let before = positions(n - 1);
        assert(all =~= before.push(n - 1));
        before.lemma_filter_push(n - 1, wants);
        assert(nodes.take(n).drop_last() =~= nodes.take(n - 1));
        let earlier = before.filter(wants);
        let picked = all.filter(wants);
        assert(picked == (if wants(n - 1) {
            earlier.push(n - 1)
        } else {
            earlier
        }));
        let old = wanted_validators(nodes.take(n - 1), keys, wanted);
        let found = wanted_validators(nodes.take(n), keys, wanted);
        assert forall|k: int| 0 <= k < found.len() implies is_from_node(
            #[trigger] found[k],
            nodes,
            keys,
            picked[k],
        ) by {
            if k < old.len() {
                assert(found[k] == old[k]);
            }
        }
    }
}

/// The wanted validators among the nodes of the cluster.
pub open spec fn validators_in(nodes: Seq<ContactInfoView>, wanted: Seq<Seq<u8>>) -> Seq<
    ValidatorInfoView,
> {
    wanted_validators(nodes, text_pubkeys(node_pubkeys(nodes)), wanted)
}

/// Finds the wanted validators among the nodes of the cluster.
pub fn find_validators(cluster_nodes: &Vec<ContactInfo>, validator_pubkeys: &Vec<[u8; 32]>) -> (infos:
    Vec<ValidatorInfo>)
    ensures
        validator_views(infos@) == validators_in(
            contact_views(cluster_nodes@),
            key_views(validator_pubkeys@),
        ),
        have_fields_of_nodes(
            infos@,
            cluster_nodes@,
            keys_of_nodes(cluster_nodes@),
            wanted_positions(keys_of_nodes(cluster_nodes@), key_views(validator_pubkeys@)),
        ),
{
    let mut pubkeys: Vec<String> = Vec::new();
    let mut i: usize = 0;
    while i < cluster_nodes.len()
        invariant
            i <= cluster_nodes@.len(),
            pubkeys@.len() == i,
            forall|j: int| 0 <= j < i ==> (#[trigger] pubkeys@[j])@ == cluster_nodes@[j].pubkey@,
        decreases cluster_nodes@.len() - i,
    {
        pubkeys.push(cluster_nodes[i].pubkey.clone());
        i = i + 1;
    }
    assert(texts(pubkeys@) =~= node_pubkeys(contact_views(cluster_nodes@)));
    let keys = parse_pubkeys(&pubkeys);
    assert(keys@.len() == optional_key_views(keys@).len());
    proof {
        lemma_node_keys(cluster_nodes@);
    }
    select_validators(cluster_nodes, &keys, validator_pubkeys)
}

/// What the texts of the public keys of a list of nodes stand for, node by node.
pub open spec fn keys_of_nodes(nodes: Seq<ContactInfo>) -> Seq<Option<Seq<u8>>> {
    Seq::new(nodes.len(), |i: int| text_pubkey(nodes[i].pubkey@))
}

proof fn lemma_node_keys(nodes: Seq<ContactInfo>)
    ensures
        text_pubkeys(node_pubkeys(contact_views(nodes))) == keys_of_nodes(nodes),
{
    assert(text_pubkeys(node_pubkeys(contact_views(nodes))) =~= keys_of_nodes(nodes));
}

/// The validators that are found in the cluster are its nodes with a wanted key, in their order, each
/// with the key that the text of the node's public key stands for and with the TPU address that the
/// node publishes, whatever its QUIC address is; the address is empty where it publishes none.
pub proof fn lemma_validators_in(nodes: Seq<ContactInfo>, wanted: Seq<Seq<u8>>)
    ensures
        come_from_nodes(
            validators_in(contact_views(nodes), wanted),
            contact_views(nodes),
            keys_of_nodes(nodes),
            wanted_positions(keys_of_nodes(nodes), wanted),
        ),
{
    lemma_node_keys(nodes);
    lemma_picked_validators(
        contact_views(nodes),
        text_pubkeys(node_pubkeys(contact_views(nodes))),
        wanted,
    );
}

/// Every node that has a wanted key and publishes a TPU address is found with that address.
pub proof fn lemma_published_address_is_found(
    nodes: Seq<ContactInfo>,
    wanted: Seq<Seq<u8>>,
    j: int,
)
    requires
        0 <= j < nodes.len(),
        text_pubkey(nodes[j].pubkey@) is Some,
        wanted.contains(text_pubkey(nodes[j].pubkey@)->0),
        nodes[j].tpu is Some,
    ensures
        exists|k: int|
            {
                &&& 0 <= k < validators_in(contact_views(nodes), wanted).len()
                &&& (#[trigger] validators_in(contact_views(nodes), wanted)[k]).pubkey
                    == text_pubkey(nodes[j].pubkey@)->0
                &&& validators_in(contact_views(nodes), wanted)[k].tpu_address == nodes[j].tpu->0@
            },
{
    let keys = keys_of_nodes(nodes);
    let all = positions(keys.len() as int);
    let found = validators_in(contact_views(nodes), wanted);
    lemma_validators_in(nodes, wanted);
    all.lemma_filter_contains(is_wanted(keys, wanted), j);
    let k = wanted_positions(keys, wanted).index_of(j);
    assert(is_from_node(found[k], contact_views(nodes), keys, j));
    assert(found[k].pubkey == text_pubkey(nodes[j].pubkey@)->0);
}

/// What is read of a list of validators is what it holds, but for the times.
pub proof fn lemma_validator_views(infos: Seq<ValidatorInfo>)
    ensures
        validator_views(infos).len() == infos.len(),
        forall|i: int|
            0 <= i < infos.len() ==> (#[trigger] validator_views(infos)[i]).pubkey
                == infos[i].pubkey@ && validator_views(infos)[i].tpu_address
                == infos[i].tpu_address@,
{
}

/// Only wanted validators are picked, each from a node that has its key and its address; and every
/// node that has a wanted key is picked.
pub proof fn lemma_wanted_validators(
    nodes: Seq<ContactInfoView>,
    keys: Seq<Option<Seq<u8>>>,
    wanted: Seq<Seq<u8>>,
)
    requires
        nodes.len() == keys.len(),
    ensures
        wanted_validators(nodes, keys, wanted).len() <= nodes.len(),
        forall|i: int|
            0 <= i < wanted_validators(nodes, keys, wanted).len() ==> wanted.contains(
                (#[trigger] wanted_validators(nodes, keys, wanted)[i]).pubkey,
            ) && is_node(wanted_validators(nodes, keys, wanted)[i], nodes, keys),
        forall|j: int|
            0 <= j < nodes.len() && (#[trigger] keys[j]) is Some && wanted.contains(keys[j]->0)
                ==> wanted_validators(nodes, keys, wanted).contains(
                (ValidatorInfoView { pubkey: keys[j]->0, tpu_address: tpu_address(nodes[j]) }),
            ),
{
    lemma_wanted_validators_upto(nodes, keys, wanted, nodes.len() as int);
    assert(nodes.take(nodes.len() as int) =~= nodes);
}

/// Whether a validator info comes from one of the nodes.
pub open spec fn is_node(
    info: ValidatorInfoView,
    nodes: Seq<ContactInfoView>,
    keys: Seq<Option<Seq<u8>>>,
) -> bool {
    exists|j: int|
        0 <= j < nodes.len() && (#[trigger] keys[j]) == Some(info.pubkey) && tpu_address(nodes[j])
            == info.tpu_address
}

proof fn lemma_wanted_validators_upto(
    nodes: Seq<ContactInfoView>,
    keys: Seq<Option<Seq<u8>>>,
    wanted: Seq<Seq<u8>>,
    n: int,
)
    requires
        nodes.len() == keys.len(),
        0 <= n <= nodes.len(),
    ensures
        wanted_validators(nodes.take(n), keys, wanted).len() <= n,
        forall|i: int|
            0 <= i < wanted_validators(nodes.take(n), keys, wanted).len() ==> wanted.contains(
                (#[trigger] wanted_validators(nodes.take(n), keys, wanted)[i]).pubkey,
            ) && is_node(wanted_validators(nodes.take(n), keys, wanted)[i], nodes, keys),
        forall|j: int|
            0 <= j < n && (#[trigger] keys[j]) is Some && wanted.contains(keys[j]->0)
                ==> wanted_validators(nodes.take(n), keys, wanted).contains(
                (ValidatorInfoView { pubkey: keys[j]->0, tpu_address: tpu_address(nodes[j]) }),
            ),
    decreases n,
{
    if n > 0 {
        lemma_wanted_validators_upto(nodes, keys, wanted, n - 1);
        assert(nodes.take(n).drop_last() =~= nodes.take(n - 1));
        let before = wanted_validators(nodes.take(n - 1), keys, wanted);
        let after = wanted_validators(nodes.take(n), keys, wanted);
        let last = keys[n - 1];
        if last is Some && wanted.contains(last->0) {
            assert(after.last() == (ValidatorInfoView {
                pubkey: last->0,
                tpu_address: tpu_address(nodes[n - 1]),
            }));
            assert(is_node(after.last(), nodes, keys));
            assert(after == before.push(after.last()));
        }
        assert forall|j: int|
            0 <= j < n && (#[trigger] keys[j]) is Some && wanted.contains(
                keys[j]->0,
            ) implies after.contains(
            (ValidatorInfoView { pubkey: keys[j]->0, tpu_address: tpu_address(nodes[j]) }),
        ) by {
            let info = ValidatorInfoView {
                pubkey: keys[j]->0,
                tpu_address: tpu_address(nodes[j]),
            };
            if j < n - 1 {
                let k = before.index_of(info);
                assert(after[k] == info);
            } else {
                assert(after[after.len() - 1] == info);
            }
        }
    }
}

/// Every node whose public key stands among the texts that the wanted keys were read from is found.
pub proof fn lemma_named_node_is_found(
    names: Seq<Seq<char>>,
    wanted: Seq<Seq<u8>>,
    nodes: Seq<ContactInfoView>,
    j: int,
)
    requires
        all_keys(names, text_pubkeys(names)) == Ok::<Seq<Seq<u8>>, Seq<char>>(wanted),
        0 <= j < nodes.len(),
        names.contains(nodes[j].pubkey),
    ensures
        text_pubkey(nodes[j].pubkey) is Some,
        validators_in(nodes, wanted).contains(
            (ValidatorInfoView {
                pubkey: text_pubkey(nodes[j].pubkey)->0,
                tpu_address: tpu_address(nodes[j]),
            }),
        ),
{
    let keys = text_pubkeys(node_pubkeys(nodes));
    lemma_all_keys(names, text_pubkeys(names));
    let i = names.index_of(nodes[j].pubkey);
    assert(text_pubkeys(names)[i] == Some(wanted[i]));
    assert(keys[j] == Some(wanted[i]));
    assert(wanted.contains(wanted[i]));
    lemma_wanted_validators(nodes, keys, wanted);
}

/// The validators are looked up every ten minutes: as often as ten passes over the slot leaders take.
pub proof fn lemma_lookup_interval(passes: nat)
    ensures
        passes * POLL_INTERVAL_SECONDS >= VALIDATOR_UPDATE_SECONDS <==> passes >= 10,
        VALIDATOR_UPDATE_SECONDS == 600,
        POLL_INTERVAL_SECONDS == 60,
        POLL_RETRY_SECONDS == 1,
{
}

} // verus!
