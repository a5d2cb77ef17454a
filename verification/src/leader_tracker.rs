//! Who leads the coming slots.
use dashmap::DashMap;
use indexmap::IndexMap;
use vstd::hash_map::StringHashMap;
use vstd::prelude::*;

use crate::contact::{contact_views, ContactInfo, ContactInfoView};
use crate::keys::{pubkey_text, pubkey_texts, pubkey_to_string, pubkeys_to_strings};
use crate::text::{clone_optional_text, optional_text, same_text, texts};

verus! {

/// The number of consecutive slots that a leader has.
pub const NUM_LEADERS_PER_SLOT: usize = 4;

/// How many slots ahead the leaders are asked for.
pub const SLOT_LEADERS_LIMIT: u64 = 1_000;

/// The seconds between two passes over the slot leaders.
pub const POLL_INTERVAL_SECONDS: u64 = 60;

/// The seconds after a pass that failed.
pub const POLL_RETRY_SECONDS: u64 = 1;

/// What a map from slots to leaders holds.
pub uninterp spec fn slot_leaders(leaders: DashMap<u64, ContactInfo>) -> Map<u64, ContactInfoView>;

/// Calls `DashMap::new`, which gives an empty map.
#[verifier::external_body]
fn leaders_new() -> (leaders: DashMap<u64, ContactInfo>)
    ensures
        slot_leaders(leaders).dom() == Set::<u64>::empty(),
{
    DashMap::new()
}

/// Calls `DashMap::insert`, which puts the value under the key and drops an earlier value.
#[verifier::external_body]
fn leaders_insert(leaders: &mut DashMap<u64, ContactInfo>, slot: u64, info: ContactInfo)
    ensures
        slot_leaders(*final(leaders)) == slot_leaders(*old(leaders)).insert(slot, info@),
{
    leaders.insert(slot, info);
}

/// Calls `DashMap::remove`, which takes the entry of the key out of the map.
#[verifier::external_body]
fn leaders_remove(leaders: &mut DashMap<u64, ContactInfo>, slot: u64)
    ensures
        slot_leaders(*final(leaders)) == slot_leaders(*old(leaders)).remove(slot),
{
    leaders.remove(&slot);
}

/// Calls `DashMap::get`, which gives access to the value under the key, or `None` where there is no
/// such entry; the value is copied.
#[verifier::external_body]
fn leaders_get(leaders: &DashMap<u64, ContactInfo>, slot: u64) -> (info: Option<ContactInfo>)
    ensures
        (match info {
            Some(info) => slot_leaders(*leaders).contains_key(slot) && info@ == slot_leaders(
                *leaders,
            )[slot],
            None => !slot_leaders(*leaders).contains_key(slot),
        }),
{
    leaders.get(&slot).map(|entry| entry.value().clone())
}

/// `entries` lists each entry of the map once, in some order.
pub open spec fn lists_entries(
    entries: Seq<(u64, ContactInfo)>,
    leaders: Map<u64, ContactInfoView>,
) -> bool {
    &&& forall|i: int|
        0 <= i < entries.len() ==> leaders.contains_key((#[trigger] entries[i]).0)
            && leaders[entries[i].0] == entries[i].1@
    &&& forall|slot: u64| #[trigger]
        leaders.contains_key(slot) ==> exists|i: int|
            0 <= i < entries.len() && (#[trigger] entries[i]).0 == slot
    &&& forall|i: int, j: int|
        0 <= i < j < entries.len() ==> (#[trigger] entries[i]).0 != (#[trigger] entries[j]).0
}

/// Calls `DashMap::iter`, which walks through the entries of the map, each once; they are copied.
/// The order of the walk is left open.
#[verifier::external_body]
fn leaders_iter(leaders: &DashMap<u64, ContactInfo>) -> (entries: Vec<(u64, ContactInfo)>)
    ensures
        lists_entries(entries@, slot_leaders(*leaders)),
{
    leaders.iter().map(|entry| (*entry.key(), entry.value().clone())).collect()
}

/// What an ordered map from public keys to contact infos holds, in its order.
pub uninterp spec fn listed_leaders(leaders: IndexMap<String, ContactInfo>) -> Seq<
    (Seq<char>, ContactInfoView),
>;

/// Whether a list has an entry for the key.
pub open spec fn has_entry(list: Seq<(Seq<char>, ContactInfoView)>, key: Seq<char>) -> bool {
    exists|i: int| 0 <= i < list.len() && (#[trigger] list[i]).0 == key
}

/// A list after a value was put under a key: in the place of the entry that the key has, or at the
/// end.
pub open spec fn with_entry(
    list: Seq<(Seq<char>, ContactInfoView)>,
    key: Seq<char>,
    value: ContactInfoView,
) -> Seq<(Seq<char>, ContactInfoView)> {
    if has_entry(list, key) {
        Seq::new(
            list.len(),
            |i: int|
                if list[i].0 == key {
                    (key, value)
                } else {
                    list[i]
                },
        )
    } else {
        list.push((key, value))
    }
}

/// Calls `IndexMap::new`, which gives an empty map.
#[verifier::external_body]
fn list_new() -> (list: IndexMap<String, ContactInfo>)
    ensures
        listed_leaders(list).len() == 0,
{
    IndexMap::new()
}

/// Calls `IndexMap::insert`. An entry with the same key keeps its place and gets the new value;
/// otherwise the new entry comes last.
#[verifier::external_body]
fn list_insert(list: &mut IndexMap<String, ContactInfo>, key: String, info: ContactInfo)
    ensures
        listed_leaders(*final(list)) == with_entry(listed_leaders(*old(list)), key@, info@),
{
    list.insert(key, info);
}

/// Calls `IndexMap::len`, which counts the entries.
#[verifier::external_body]
fn list_len(list: &IndexMap<String, ContactInfo>) -> (len: usize)
    ensures
        len == listed_leaders(*list).len(),
{
    list.len()
}

/// The values of a list.
pub open spec fn entry_values(list: Seq<(Seq<char>, ContactInfoView)>) -> Seq<ContactInfoView> {
    list.map_values(|entry: (Seq<char>, ContactInfoView)| entry.1)
}

/// Calls `IndexMap::values`, which walks through the values in the order of the map; they are
/// copied.
#[verifier::external_body]
fn list_values(list: &IndexMap<String, ContactInfo>) -> (infos: Vec<ContactInfo>)
    ensures
        contact_views(infos@) == entry_values(listed_leaders(*list)),
{
    list.values().cloned().collect()
}

/// The slot whose leader is to be reached first, as a mathematical number: `leader_offset` leaders
/// after the next slot, or before it where the offset is negative.
pub open spec fn start_slot(next_slot: u64, leader_offset: i64) -> int {
    next_slot + leader_offset * NUM_LEADERS_PER_SLOT
}

/// Whether the start slot and the way to it fit into 64 bits.
pub open spec fn start_slot_fits(next_slot: u64, leader_offset: i64) -> bool {
    &&& i64::MIN < leader_offset * NUM_LEADERS_PER_SLOT <= i64::MAX
    &&& 0 <= start_slot(next_slot, leader_offset) <= u64::MAX
}

/// The slot whose leader is to be reached first.
pub fn _get_start_slot(next_slot: u64, leader_offset: i64) -> (slot: u64)
    requires
        start_slot_fits(next_slot, leader_offset),
    ensures
        slot == start_slot(next_slot, leader_offset),
        slot == next_slot + 4 * leader_offset,
{
    let slot_buffer: i64 = leader_offset * (NUM_LEADERS_PER_SLOT as i64);
    if slot_buffer > 0 {
        next_slot + slot_buffer as u64
    } else {
        next_slot - (-slot_buffer) as u64
    }
}

/// Whether [`_get_start_slot`] may be called.
pub fn has_start_slot(next_slot: u64, leader_offset: i64) -> (fits: bool)
    ensures
        fits == start_slot_fits(next_slot, leader_offset),
        fits <==> 0 <= next_slot + 4 * leader_offset <= u64::MAX && i64::MIN < 4 * leader_offset
            <= i64::MAX,
{
    let slots_per_leader: i128 = NUM_LEADERS_PER_SLOT as i128;
    assert(slots_per_leader == 4);
    let slot_buffer: i128 = leader_offset as i128 * slots_per_leader;
    let slot: i128 = next_slot as i128 + slot_buffer;
    (i64::MIN as i128) < slot_buffer && slot_buffer <= i64::MAX as i128 && 0 <= slot && slot
        <= u64::MAX as i128
}

/// Whom the tracker knows as the leader of which slot.
pub struct LeaderTrackerImpl {
    cur_slot: u64,
    cur_leaders: DashMap<u64, ContactInfo>,
    num_leaders: usize,
    leader_offset: i64,
}

/// The content of a [`LeaderTrackerImpl`].
pub struct LeaderTrackerView {
    /// The first slot whose leader is of interest.
    pub cur_slot: u64,
    /// The known leaders, by slot.
    pub leaders: Map<u64, ContactInfoView>,
    /// How many leaders are reached at a time.
    pub num_leaders: usize,
    /// How many leaders to look ahead, or back.
    pub leader_offset: i64,
}

impl View for LeaderTrackerImpl {
    type V = LeaderTrackerView;

    closed spec fn view(&self) -> LeaderTrackerView {
        LeaderTrackerView {
            cur_slot: self.cur_slot,
            leaders: slot_leaders(self.cur_leaders),
            num_leaders: self.num_leaders,
            leader_offset: self.leader_offset,
        }
    }
}

/// One that knows the leaders of the coming slots.
pub trait LeaderTracker: Send + Sync {
    /// Whether the leaders can be listed.
    spec fn can_list(&self) -> bool;

    /// The leaders to reach, the next one first.
    spec fn listed(&self) -> Seq<ContactInfoView>;

    /// Lists the leaders to reach.
    fn get_leaders(&self) -> (leaders: Vec<ContactInfo>)
        requires
            self.can_list(),
        ensures
            contact_views(leaders@) == self.listed(),
    ;
}

/// The leaders from a slot on, added to a list. The walk ends before `end_slot`, or when the list
/// has `num_leaders` entries. A leader that is met again keeps its place.
pub open spec fn leaders_from(
    leaders: Map<u64, ContactInfoView>,
    slot: int,
    end_slot: int,
    num_leaders: nat,
    list: Seq<(Seq<char>, ContactInfoView)>,
) -> Seq<(Seq<char>, ContactInfoView)>
    decreases end_slot - slot,
{
    if slot >= end_slot {
        list
    } else {
        let next = with_leader_of(leaders, slot, list);
        if next.len() >= num_leaders {
            next
        } else {
            leaders_from(leaders, slot + 1, end_slot, num_leaders, next)
        }
    }
}

/// A list with the leader of a slot, where there is one.
pub open spec fn with_leader_of(
    leaders: Map<u64, ContactInfoView>,
    slot: int,
    list: Seq<(Seq<char>, ContactInfoView)>,
) -> Seq<(Seq<char>, ContactInfoView)> {
    if leaders.contains_key(slot as u64) {
        with_entry(list, leaders[slot as u64].pubkey, leaders[slot as u64])
    } else {
        list
    }
}

impl LeaderTrackerView {
    /// The slot before which the search for leaders ends.
    pub open spec fn end_slot(self) -> int {
        self.cur_slot + self.num_leaders * NUM_LEADERS_PER_SLOT
    }

    /// The leaders to reach, with their public keys.
    pub open spec fn next_leaders(self) -> Seq<(Seq<char>, ContactInfoView)> {
        leaders_from(
            self.leaders,
            self.cur_slot as int,
            self.end_slot(),
            self.num_leaders as nat,
            Seq::<(Seq<char>, ContactInfoView)>::empty(),
        )
    }
}

impl LeaderTracker for LeaderTrackerImpl {
    /// The slots to search fit into 64 bits.
    open spec fn can_list(&self) -> bool {
        self@.num_leaders * NUM_LEADERS_PER_SLOT <= usize::MAX && self@.end_slot() <= u64::MAX
    }

    open spec fn listed(&self) -> Seq<ContactInfoView> {
        entry_values(self@.next_leaders())
    }

    fn get_leaders(&self) -> (leaders: Vec<ContactInfo>) {
        let start_slot: u64 = self.cur_slot;
        let end_slot: u64 = start_slot + (self.num_leaders * NUM_LEADERS_PER_SLOT) as u64;
        let mut leaders = list_new();
        let mut slot: u64 = start_slot;
        assert(listed_leaders(leaders) =~= Seq::<(Seq<char>, ContactInfoView)>::empty());
        while slot < end_slot
            invariant_except_break
                self@.next_leaders() == leaders_from(
                    self@.leaders,
                    slot as int,
                    end_slot as int,
                    self.num_leaders as nat,
                    listed_leaders(leaders),
                ),
            invariant
                slot <= end_slot,
            ensures
                listed_leaders(leaders) == self@.next_leaders(),
            decreases end_slot - slot,
        {
            let leader = leaders_get(&self.cur_leaders, slot);
            if let Some(leader) = leader {
                list_insert(&mut leaders, leader.pubkey.clone(), leader);
            }
            if list_len(&leaders) >= self.num_leaders {
                break;
            }
            slot = slot + 1;
        }
        list_values(&leaders)
    }
}

/// What the cluster said when it was asked for the leaders of the coming slots and for its nodes.
pub enum ClusterReply {
    /// The leaders of consecutive slots, and the nodes of the cluster.
    Fetched { slot_leaders: Vec<[u8; 32]>, cluster_nodes: Vec<ContactInfo> },
    /// The leaders could not be had; the nodes were not asked for.
    NoSlotLeaders(String),
    /// The leaders could be had, the nodes not.
    NoClusterNodes(String),
}

/// Why a pass over the slot leaders failed.
pub struct AtlasTxnSenderError {
    pub message: String,
}

/// The nodes by public key; of nodes with the same key, the last one counts.
pub open spec fn nodes_by_key(nodes: Seq<ContactInfoView>) -> Map<Seq<char>, ContactInfoView>
    decreases nodes.len(),
{
    if nodes.len() == 0 {
        Map::empty()
    } else {
        nodes_by_key(nodes.drop_last()).insert(nodes.last().pubkey, nodes.last())
    }
}

/// Whether a slot gets a leader: `leaders` leads the slots from `next_slot` on, and a node is known
/// by the key of the slot's leader.
pub open spec fn is_assigned(
    slot: u64,
    next_slot: u64,
    leaders: Seq<Seq<char>>,
    nodes: Map<Seq<char>, ContactInfoView>,
) -> bool {
    next_slot <= slot < next_slot + leaders.len() && nodes.contains_key(leaders[slot - next_slot])
}

/// Whether every slot from `next_slot` on that gets a leader fits into 64 bits.
pub open spec fn slots_fit(
    next_slot: u64,
    leaders: Seq<Seq<char>>,
    nodes: Map<Seq<char>, ContactInfoView>,
) -> bool {
    forall|i: int|
        0 <= i < leaders.len() && nodes.contains_key(#[trigger] leaders[i]) ==> next_slot + i
            <= u64::MAX
}

/// Whether what the cluster said about the slots from `next_slot` on can be taken in.
pub open spec fn reply_fits(next_slot: u64, reply: ClusterReply) -> bool {
    match reply {
        ClusterReply::Fetched { slot_leaders, cluster_nodes } => slots_fit(
            next_slot,
            pubkey_texts(slot_leaders@),
            nodes_by_key(contact_views(cluster_nodes@)),
        ),
        _ => true,
    }
}

/// The known leaders after those of the slots from `next_slot` on were learned. A leader that is
/// not among the nodes is passed over.
pub open spec fn with_slot_leaders(
    known: Map<u64, ContactInfoView>,
    next_slot: u64,
    leaders: Seq<Seq<char>>,
    nodes: Map<Seq<char>, ContactInfoView>,
) -> Map<u64, ContactInfoView> {
    Map::new(
        |slot: u64| known.contains_key(slot) || is_assigned(slot, next_slot, leaders, nodes),
        |slot: u64|
            if is_assigned(slot, next_slot, leaders, nodes) {
                nodes[leaders[slot - next_slot]]
            } else {
                known[slot]
            },
    )
}

/// The known leaders without those of past slots.
pub open spec fn without_past(known: Map<u64, ContactInfoView>, cur_slot: u64) -> Map<
    u64,
    ContactInfoView,
> {
    known.remove_keys(Set::new(|slot: u64| slot < cur_slot))
}

/// A pass over the slot leaders takes the tracker from `before` to `after`: it learns the leaders of
/// the slots from `next_slot` on and forgets those of past slots. Where the cluster could not be
/// asked, nothing changes, and the error says why.
pub open spec fn is_pass(
    before: LeaderTrackerView,
    next_slot: u64,
    reply: ClusterReply,
    after: LeaderTrackerView,
    outcome: Result<(), AtlasTxnSenderError>,
) -> bool {
    match reply {
        ClusterReply::Fetched { slot_leaders, cluster_nodes } => {
            &&& outcome is Ok
            &&& after == (LeaderTrackerView {
                leaders: without_past(
                    with_slot_leaders(
                        before.leaders,
                        next_slot,
                        pubkey_texts(slot_leaders@),
                        nodes_by_key(contact_views(cluster_nodes@)),
                    ),
                    before.cur_slot,
                ),
                ..before
            })
        },
        ClusterReply::NoSlotLeaders(cause) => {
            &&& outcome matches Err(error) && error.message@ == "Error getting slot leaders: "@
                + cause@
            &&& after == before
        },
        ClusterReply::NoClusterNodes(cause) => {
            &&& outcome matches Err(error) && error.message@ == "Error getting cluster nodes: "@
                + cause@
            &&& after == before
        },
    }
}

/// The seconds from a pass over the slot leaders to the next.
pub open spec fn pause_after(reply: ClusterReply) -> u64 {
    if reply is Fetched {
        POLL_INTERVAL_SECONDS
    } else {
        POLL_RETRY_SECONDS
    }
}

/// Whether a node has the given public key.
fn names_node(nodes: &Vec<ContactInfo>, key: &str) -> (found: bool)
    ensures
        found == nodes_by_key(contact_views(nodes@)).contains_key(key@),
{
    let ghost views = contact_views(nodes@);
    let mut found: bool = false;
    let mut i: usize = 0;
    while i < nodes.len()
        invariant
            i <= nodes@.len(),
            views == contact_views(nodes@),
            found == nodes_by_key(views.take(i as int)).contains_key(key@),
        decreases nodes@.len() - i,
    {
        assert(views.take(i + 1).drop_last() =~= views.take(i as int));
        if same_text(nodes[i].pubkey.as_str(), key) {
            found = true;
        }
        i = i + 1;
    }
    assert(views.take(i as int) =~= views);
    found
}

/// Whether [`LeaderTrackerImpl::poll_slot_leaders`] may be called.
pub fn has_slots_for(next_slot: u64, reply: &ClusterReply) -> (fits: bool)
    ensures
        fits == reply_fits(next_slot, *reply),
{
    match reply {
        ClusterReply::Fetched { slot_leaders, cluster_nodes } => {
            let ghost keys = pubkey_texts(slot_leaders@);
            let ghost nodes = nodes_by_key(contact_views(cluster_nodes@));
            let last: u64 = u64::MAX - next_slot;
            if last >= slot_leaders.len() as u64 {
                return true;
            }
            let mut i: usize = last as usize + 1;
            while i < slot_leaders.len()
                invariant
                    last < i <= slot_leaders@.len(),
                    last == u64::MAX - next_slot,
                    keys == pubkey_texts(slot_leaders@),
                    nodes == nodes_by_key(contact_views(cluster_nodes@)),
                    reply_fits(next_slot, *reply) == slots_fit(next_slot, keys, nodes),
                    forall|j: int| last < j < i ==> !nodes.contains_key(#[trigger] keys[j]),
                decreases slot_leaders@.len() - i,
            {
                let key = pubkey_to_string(&slot_leaders[i]);
                assert(keys[i as int] == key@);
                if names_node(cluster_nodes, key.as_str()) {
                    return false;
                }
                i = i + 1;
            }
            true
        },
        _ => true,
    }
}

/// The nodes of a list, by public key.
fn node_map(nodes: Vec<ContactInfo>) -> (map: StringHashMap<ContactInfo>)
    ensures
        map@.map_values(|node: ContactInfo| node@) == nodes_by_key(contact_views(nodes@)),
{
    let ghost views = contact_views(nodes@);
    let ghost all = nodes@;
    let mut map: StringHashMap<ContactInfo> = StringHashMap::new();
    assert(map@.map_values(|node: ContactInfo| node@) =~= nodes_by_key(views.take(0)));
    for node in walk: nodes.into_iter()
        invariant
            walk.seq() == all,
            views == contact_views(all),
            map@.map_values(|node: ContactInfo| node@) == nodes_by_key(views.take(walk.index())),
    {
        let ghost i = walk.index();
        let ghost before = map@;
        let ghost value = node;
        assert(views.take(i + 1).drop_last() =~= views.take(i));
        map.insert(node.pubkey.clone(), node);
        proof {
            let view = |node: ContactInfo| node@;
            assert(map@.map_values(view) =~= before.map_values(view).insert(
                value.pubkey@,
                value@,
            ));
        }
    }
    assert(views.take(views.len() as int) =~= views);
    map
}

impl LeaderTrackerImpl {
    /// A tracker that knows no leaders.
    pub fn new(num_leaders: usize, leader_offset: i64) -> (tracker: Self)
        ensures
            tracker@.cur_slot == 0,
            tracker@.leaders == Map::<u64, ContactInfoView>::empty(),
            tracker@.num_leaders == num_leaders,
            tracker@.leader_offset == leader_offset,
    {
        let tracker = LeaderTrackerImpl {
            cur_slot: 0,
            cur_leaders: leaders_new(),
            num_leaders,
            leader_offset,
        };
        assert(tracker@.leaders =~= Map::<u64, ContactInfoView>::empty());
        tracker
    }

    /// The first slot whose leader is of interest.
    pub fn cur_slot(&self) -> (slot: u64)
        ensures
            slot == self@.cur_slot,
    {
        self.cur_slot
    }

    /// How many leaders to look ahead, or back.
    pub fn leader_offset(&self) -> (offset: i64)
        ensures
            offset == self@.leader_offset,
    {
        self.leader_offset
    }

    /// Takes note of the next slot, where there is word of one. The tracker never goes back.
    pub fn poll_slot(&mut self, next_slot: Option<u64>)
        requires
            next_slot is Some ==> start_slot_fits(next_slot->0, old(self)@.leader_offset),
        ensures
            final(self)@ == (LeaderTrackerView {
                cur_slot: if next_slot is Some && start_slot(
                    next_slot->0,
                    old(self)@.leader_offset,
                ) > old(self)@.cur_slot {
                    start_slot(next_slot->0, old(self)@.leader_offset) as u64
                } else {
                    old(self)@.cur_slot
                },
                ..old(self)@
            }),
            next_slot is None ==> final(self)@.cur_slot == old(self)@.cur_slot,
            next_slot is Some ==> {
                let slot = next_slot->0 + 4 * old(self)@.leader_offset;
                &&& slot > old(self)@.cur_slot ==> final(self)@.cur_slot == slot
                &&& slot <= old(self)@.cur_slot ==> final(self)@.cur_slot == old(self)@.cur_slot
            },
    {
        if let Some(next_slot) = next_slot {
            let start_slot: u64 = _get_start_slot(next_slot, self.leader_offset);
            if start_slot > self.cur_slot {
                self.cur_slot = start_slot;
            }
        }
    }

    /// Forgets the leaders of past slots.
    pub fn clean_up_slot_leaders(&mut self)
        ensures
            final(self)@ == (LeaderTrackerView {
                leaders: without_past(old(self)@.leaders, old(self)@.cur_slot),
                ..old(self)@
            }),
            forall|slot: u64| #[trigger]
                final(self)@.leaders.contains_key(slot) <==> old(self)@.leaders.contains_key(slot)
                    && slot >= old(self)@.cur_slot,
            forall|slot: u64| #[trigger]
                final(self)@.leaders.contains_key(slot) ==> final(self)@.leaders[slot] == old(
                    self,
                )@.leaders[slot],
    {
        let cur_slot: u64 = self.cur_slot;
        let entries = leaders_iter(&self.cur_leaders);
        let ghost known = self@.leaders;
        let mut i: usize = 0;
        while i < entries.len()
            invariant
                i <= entries@.len(),
                lists_entries(entries@, known),
                known == old(self)@.leaders,
                cur_slot == old(self)@.cur_slot,
                self@.cur_slot == old(self)@.cur_slot,
                self@.num_leaders == old(self)@.num_leaders,
                self@.leader_offset == old(self)@.leader_offset,
                self@.leaders == known.remove_keys(past_slots(entries@.take(i as int), cur_slot)),
            decreases entries@.len() - i,
        {
            let slot: u64 = entries[i].0;
            if slot < cur_slot {
                leaders_remove(&mut self.cur_leaders, slot);
            }
            proof {
                lemma_past_slots_next(entries@, i as int, cur_slot);
                assert(self@.leaders =~= known.remove_keys(
                    past_slots(entries@.take(i + 1), cur_slot),
                ));
            }
            i = i + 1;
        }
        assert(entries@.take(i as int) =~= entries@);
        assert(self@.leaders =~= without_past(known, cur_slot));
    }

    /// Learns the leaders of the slots from `next_slot` on, given by their public keys.
    pub fn record_slot_leaders(
        &mut self,
        next_slot: u64,
        leaders: &Vec<String>,
        cluster_nodes: Vec<ContactInfo>,
    )
        requires
            slots_fit(
                next_slot,
                texts(leaders@),
                nodes_by_key(contact_views(cluster_nodes@)),
            ),
        ensures
            final(self)@ == (LeaderTrackerView {
                leaders: with_slot_leaders(
                    old(self)@.leaders,
                    next_slot,
                    texts(leaders@),
                    nodes_by_key(contact_views(cluster_nodes@)),
                ),
                ..old(self)@
            }),
    {
        let ghost nodes = nodes_by_key(contact_views(cluster_nodes@));
        let ghost known = self@.leaders;
        let ghost keys = texts(leaders@);
        let cluster_node_map = node_map(cluster_nodes);
        let mut i: usize = 0;
        assert(self@.leaders =~= with_slot_leaders(known, next_slot, keys.take(0), nodes));
        while i < leaders.len()
            invariant
                i <= leaders@.len(),
                slots_fit(next_slot, keys, nodes),
                keys == texts(leaders@),
                cluster_node_map@.map_values(|node: ContactInfo| node@) == nodes,
                self@.cur_slot == old(self)@.cur_slot,
                self@.num_leaders == old(self)@.num_leaders,
                self@.leader_offset == old(self)@.leader_offset,
                self@.leaders == with_slot_leaders(known, next_slot, keys.take(i as int), nodes),
            decreases leaders@.len() - i,
        {
            assert(nodes.contains_key(keys[i as int]) <==> cluster_node_map@.contains_key(
                leaders@[i as int]@,
            ));
            match cluster_node_map.get(leaders[i].as_str()) {
                Some(contact_info) => leaders_insert(
                    &mut self.cur_leaders,
                    next_slot + i as u64,
                    contact_info.clone(),
                ),
                None => {},
            }
            proof {
                lemma_slot_leaders_next(known, next_slot, keys, nodes, i as int);
            }
            i = i + 1;
        }
        assert(keys.take(i as int) =~= keys);
    }

    /// Takes in what the cluster said about the slots from `next_slot` on, and forgets the leaders
    /// of past slots. Nothing changes where the cluster could not be asked.
    pub fn poll_slot_leaders_once(&mut self, next_slot: u64, reply: ClusterReply) -> (outcome: Result<
        (),
        AtlasTxnSenderError,
    >)
        requires
            reply_fits(next_slot, reply),
        ensures
            is_pass(old(self)@, next_slot, reply, final(self)@, outcome),
    {
        match reply {
            ClusterReply::Fetched { slot_leaders, cluster_nodes } => {
                let leaders = pubkeys_to_strings(&slot_leaders);
                self.record_slot_leaders(next_slot, &leaders, cluster_nodes);
                self.clean_up_slot_leaders();
                Ok(())
            },
            ClusterReply::NoSlotLeaders(cause) => {
                let mut message = "Error getting slot leaders: ".to_owned();
                message.append(cause.as_str());
                Err(AtlasTxnSenderError { message })
            },
            ClusterReply::NoClusterNodes(cause) => {
                let mut message = "Error getting cluster nodes: ".to_owned();
                message.append(cause.as_str());
                Err(AtlasTxnSenderError { message })
            },
        }
    }

    /// Makes one pass over the slot leaders, and says after how many seconds to make the next.
    pub fn poll_slot_leaders(&mut self, next_slot: u64, reply: ClusterReply) -> (pass: (
        Result<(), AtlasTxnSenderError>,
        u64,
    ))
        requires
            reply_fits(next_slot, reply),
        ensures
            is_pass(old(self)@, next_slot, reply, final(self)@, pass.0),
            pass.1 == pause_after(reply),
            reply is Fetched ==> pass.0 is Ok && pass.1 == 60,
            reply !is Fetched ==> pass.0 is Err && pass.1 == 1,
    {
        match self.poll_slot_leaders_once(next_slot, reply) {
            Ok(()) => (Ok(()), POLL_INTERVAL_SECONDS),
            Err(error) => (Err(error), POLL_RETRY_SECONDS),
        }
    }

    /// Makes one pass over the slot leaders as [`Self::poll_slot_leaders`] does. Where a slot that gets
    /// a leader does not fit into 64 bits, nothing changes, and the result is `None`.
    pub fn try_poll_slot_leaders(&mut self, next_slot: u64, reply: ClusterReply) -> (pass: Option<
        (Result<(), AtlasTxnSenderError>, u64),
    >)
        ensures
            (match pass {
                Some(pass) => {
                    &&& reply_fits(next_slot, reply)
                    &&& is_pass(old(self)@, next_slot, reply, final(self)@, pass.0)
                    &&& pass.1 == pause_after(reply)
                },
                None => !reply_fits(next_slot, reply) && final(self)@ == old(self)@,
            }),
    {
        if has_slots_for(next_slot, &reply) {
            Some(self.poll_slot_leaders(next_slot, reply))
        } else {
            None
        }
    }

    /// Whether [`LeaderTracker::get_leaders`] may be called.
    pub fn can_list_leaders(&self) -> (can: bool)
        ensures
            can == self.can_list(),
            can <==> 4 * self@.num_leaders <= usize::MAX && self@.cur_slot + 4 * self@.num_leaders
                <= u64::MAX,
    {
        let slots: u128 = self.num_leaders as u128 * NUM_LEADERS_PER_SLOT as u128;
        slots <= usize::MAX as u128 && self.cur_slot as u128 + slots <= u64::MAX as u128
    }
}

/// Whether `slot` is the first slot that the tracker knows the given leader to lead.
pub open spec fn is_first_slot_of(
    leaders: Map<u64, ContactInfoView>,
    leader_pubkey: Seq<char>,
    slot: u64,
) -> bool {
    &&& leaders.contains_key(slot)
    &&& leaders[slot].pubkey == leader_pubkey
    &&& forall|other: u64| #[trigger]
        leaders.contains_key(other) && leaders[other].pubkey == leader_pubkey ==> slot <= other
}

/// The TPU address of a leader that the tracker knows, if it has one. Where the tracker knows
/// several slots of the leader, the first one counts.
pub fn get_leader_tpu_address(tracker: &LeaderTrackerImpl, leader_pubkey: &str) -> (address: Option<
    String,
>)
    ensures
        forall|slot: u64| #[trigger]
            is_first_slot_of(tracker@.leaders, leader_pubkey@, slot) ==> optional_text(address)
                == tracker@.leaders[slot].tpu,
        (forall|slot: u64| #[trigger]
            tracker@.leaders.contains_key(slot) ==> tracker@.leaders[slot].pubkey
                != leader_pubkey@) ==> address is None,
        forall|slot: u64|
            {
                &&& #[trigger] tracker@.leaders.contains_key(slot)
                &&& tracker@.leaders[slot].pubkey == leader_pubkey@
                &&& forall|other: u64| #[trigger]
                    tracker@.leaders.contains_key(other) && other < slot
                        ==> tracker@.leaders[other].pubkey != leader_pubkey@
            } ==> {
                &&& address is Some == tracker@.leaders[slot].tpu is Some
                &&& address is Some ==> address->0@ == tracker@.leaders[slot].tpu->0
            },
{
    let entries = leaders_iter(&tracker.cur_leaders);
    let ghost known = tracker@.leaders;
    let mut first: Option<usize> = None;
    let mut i: usize = 0;
    while i < entries.len()
        invariant
            i <= entries@.len(),
            lists_entries(entries@, known),
            first is None ==> forall|k: int|
                0 <= k < i ==> (#[trigger] entries@[k]).1.pubkey@ != leader_pubkey@,
            first is Some ==> first->0 < i && entries@[first->0 as int].1.pubkey@ == leader_pubkey@
                && forall|k: int|
                0 <= k < i && (#[trigger] entries@[k]).1.pubkey@ == leader_pubkey@
                    ==> entries@[first->0 as int].0 <= entries@[k].0,
        decreases entries@.len() - i,
    {
        if same_text(entries[i].1.pubkey.as_str(), leader_pubkey) {
            match first {
                Some(best) => if entries[i].0 < entries[best].0 {
                    first = Some(i);
                },
                None => first = Some(i),
            }
        }
        i = i + 1;
    }
    match first {
        Some(best) => {
            proof {
                let slot = entries@[best as int].0;
                assert(known.contains_key(slot));
                assert forall|other: u64|
                    {
                        &&& #[trigger] known.contains_key(other)
                        &&& known[other].pubkey == leader_pubkey@
                        &&& forall|earlier: u64| #[trigger]
                            known.contains_key(earlier) && earlier < other
                                ==> known[earlier].pubkey != leader_pubkey@
                    } implies other == slot by {
                    let k = choose|k: int| 0 <= k < entries@.len() && (#[trigger] entries@[k]).0
                        == other;
                    assert(entries@[k].1@ == known[other]);
                    assert(known[slot].pubkey == leader_pubkey@);
                }
                assert forall|other: u64| #[trigger]
                    is_first_slot_of(known, leader_pubkey@, other) implies other == slot by {
                    let k = choose|k: int| 0 <= k < entries@.len() && (#[trigger] entries@[k]).0
                        == other;
                    assert(entries@[k].1@ == known[other]);
                }
            }
            clone_optional_text(&entries[best].1.tpu)
        },
        None => {
            proof {
                assert forall|slot: u64| #[trigger] known.contains_key(slot) implies known[slot].pubkey
                    != leader_pubkey@ by {
                    let k = choose|k: int| 0 <= k < entries@.len() && (#[trigger] entries@[k]).0
                        == slot;
                    assert(entries@[k].1@ == known[slot]);
                }
            }
            None
        },
    }
}

/// What one more leader adds to the known ones.
proof fn lemma_slot_leaders_next(
    known: Map<u64, ContactInfoView>,
    next_slot: u64,
    keys: Seq<Seq<char>>,
    nodes: Map<Seq<char>, ContactInfoView>,
    i: int,
)
    requires
        0 <= i < keys.len(),
        slots_fit(next_slot, keys, nodes),
    ensures
        with_slot_leaders(known, next_slot, keys.take(i + 1), nodes) == (if nodes.contains_key(
            keys[i],
        ) {
            with_slot_leaders(known, next_slot, keys.take(i), nodes).insert(
                (next_slot + i) as u64,
                nodes[keys[i]],
            )
        } else {
            with_slot_leaders(known, next_slot, keys.take(i), nodes)
        }),
{
    let before = with_slot_leaders(known, next_slot, keys.take(i), nodes);
    let after = with_slot_leaders(known, next_slot, keys.take(i + 1), nodes);
    assert forall|slot: u64| slot != next_slot + i implies is_assigned(
        slot,
        next_slot,
        keys.take(i + 1),
        nodes,
    ) == is_assigned(slot, next_slot, keys.take(i), nodes) by {}
    if nodes.contains_key(keys[i]) {
        assert(after =~= before.insert((next_slot + i) as u64, nodes[keys[i]]));
    } else {
        assert(after =~= before);
    }
}

/// The past slots in a list of entries.
spec fn past_slots(entries: Seq<(u64, ContactInfo)>, cur_slot: u64) -> Set<u64> {
    Set::new(
        |slot: u64|
            slot < cur_slot && exists|k: int|
                0 <= k < entries.len() && (#[trigger] entries[k]).0 == slot,
    )
}

/// What one more entry adds to the past slots.
proof fn lemma_past_slots_next(entries: Seq<(u64, ContactInfo)>, i: int, cur_slot: u64)
    requires
        0 <= i < entries.len(),
    ensures
        past_slots(entries.take(i + 1), cur_slot) == (if entries[i].0 < cur_slot {
            past_slots(entries.take(i), cur_slot).insert(entries[i].0)
        } else {
            past_slots(entries.take(i), cur_slot)
        }),
{
    let before = past_slots(entries.take(i), cur_slot);
    let after = past_slots(entries.take(i + 1), cur_slot);
    let slot = entries[i].0;
    assert forall|s: u64| before.contains(s) implies after.contains(s) by {
        let k = choose|k: int| 0 <= k < i && (#[trigger] entries.take(i)[k]).0 == s;
        assert(entries.take(i + 1)[k].0 == s);
    }
    assert forall|s: u64| after.contains(s) && s != slot implies before.contains(s) by {
        let k = choose|k: int| 0 <= k < i + 1 && (#[trigger] entries.take(i + 1)[k]).0 == s;
        assert(entries.take(i)[k].0 == s);
    }
    if slot < cur_slot {
        assert(entries.take(i + 1)[i].0 == slot);
        assert(after =~= before.insert(slot));
    } else {
        assert(after =~= before);
    }
}

/// The public keys in a list are different.
pub open spec fn has_distinct_keys(list: Seq<(Seq<char>, ContactInfoView)>) -> bool {
    forall|i: int, j: int|
        0 <= i < j < list.len() ==> (#[trigger] list[i]).0 != (#[trigger] list[j]).0
}

/// Each entry of a list is the leader of a slot in `start..end`, under its own public key.
pub open spec fn lists_leaders_of(
    list: Seq<(Seq<char>, ContactInfoView)>,
    leaders: Map<u64, ContactInfoView>,
    start: int,
    end: int,
) -> bool {
    forall|i: int|
        0 <= i < list.len() ==> (#[trigger] list[i]).1.pubkey == list[i].0 && leads_one_of(
            list[i].1,
            leaders,
            start,
            end,
        )
}

/// Whether a node leads a slot in `start..end`.
pub open spec fn leads_one_of(
    leader: ContactInfoView,
    leaders: Map<u64, ContactInfoView>,
    start: int,
    end: int,
) -> bool {
    exists|slot: u64| #[trigger]
        leaders.contains_key(slot) && start <= slot < end && leaders[slot] == leader
}

/// Every leader of a slot in `start..end` is on the list.
pub open spec fn lists_all_leaders_of(
    list: Seq<(Seq<char>, ContactInfoView)>,
    leaders: Map<u64, ContactInfoView>,
    start: int,
    end: int,
) -> bool {
    forall|slot: u64| #[trigger]
        leaders.contains_key(slot) && start <= slot < end ==> has_entry(list, leaders[slot].pubkey)
}

/// Whether a public key leads a slot in `start..end`.
pub open spec fn key_leads_one_of(
    key: Seq<char>,
    leaders: Map<u64, ContactInfoView>,
    start: int,
    end: int,
) -> bool {
    exists|slot: u64| #[trigger]
        leaders.contains_key(slot) && start <= slot < end && leaders[slot].pubkey == key
}

/// On the list, a leader stands before another one only if it leads a slot before every slot that
/// the other one leads.
pub open spec fn is_in_slot_order(
    list: Seq<(Seq<char>, ContactInfoView)>,
    leaders: Map<u64, ContactInfoView>,
    start: int,
) -> bool {
    forall|i: int, j: int, slot: u64|
        #![trigger list[i], list[j], leaders.contains_key(slot)]
        0 <= i < j < list.len() && leaders.contains_key(slot) && start <= slot
            && leaders[slot].pubkey == list[j].0 ==> key_leads_one_of(
            list[i].0,
            leaders,
            start,
            slot as int,
        )
}

/// Whether a node is what the last slot in `start..end` that the key leads has as its leader.
pub open spec fn is_latest(
    info: ContactInfoView,
    key: Seq<char>,
    leaders: Map<u64, ContactInfoView>,
    start: int,
    end: int,
) -> bool {
    exists|slot: u64|
        {
            &&& #[trigger] leaders.contains_key(slot)
            &&& start <= slot < end
            &&& leaders[slot] == info
            &&& info.pubkey == key
            &&& forall|later: u64| #[trigger]
                leaders.contains_key(later) && slot < later < end ==> leaders[later].pubkey != key
        }
}

/// Each entry of a list is what the last slot in `start..end` that its key leads has as its leader.
pub open spec fn lists_latest_of(
    list: Seq<(Seq<char>, ContactInfoView)>,
    leaders: Map<u64, ContactInfoView>,
    start: int,
    end: int,
) -> bool {
    forall|i: int|
        0 <= i < list.len() ==> is_latest((#[trigger] list[i]).1, list[i].0, leaders, start, end)
}

/// Every key on the list leads a slot before each slot in `start..end` whose leader is not on it.
pub open spec fn is_ahead_of_unlisted(
    list: Seq<(Seq<char>, ContactInfoView)>,
    leaders: Map<u64, ContactInfoView>,
    start: int,
    end: int,
) -> bool {
    forall|i: int, slot: u64|
        #![trigger list[i], leaders.contains_key(slot)]
        0 <= i < list.len() && leaders.contains_key(slot) && start <= slot < end && !has_entry(
            list,
            leaders[slot].pubkey,
        ) ==> key_leads_one_of(list[i].0, leaders, start, slot as int)
}

/// The search for leaders ends before the slot `stop`. Every leader of a slot before it is on the list,
/// each with what its last slot before `stop` says of it. A list with fewer entries than asked for
/// comes from all slots; a full one comes from the slots up to the first one of its last key.
pub open spec fn is_search_end(
    list: Seq<(Seq<char>, ContactInfoView)>,
    leaders: Map<u64, ContactInfoView>,
    start: int,
    end_slot: int,
    num_leaders: nat,
    stop: int,
) -> bool {
    &&& start <= stop <= end_slot
    &&& lists_all_leaders_of(list, leaders, start, stop)
    &&& lists_latest_of(list, leaders, start, stop)
    &&& list.len() < num_leaders ==> stop == end_slot
    &&& 0 < num_leaders <= list.len() ==> {
        &&& start < stop
        &&& leaders.contains_key((stop - 1) as u64)
        &&& leaders[(stop - 1) as u64].pubkey == list.last().0
        &&& !key_leads_one_of(list.last().0, leaders, start, stop - 1)
    }
}

/// Putting a leader on the list keeps its public keys different.
proof fn lemma_with_entry(
    list: Seq<(Seq<char>, ContactInfoView)>,
    key: Seq<char>,
    value: ContactInfoView,
)
    requires
        has_distinct_keys(list),
    ensures
        has_distinct_keys(with_entry(list, key, value)),
        list.len() <= with_entry(list, key, value).len() <= list.len() + 1,
        has_entry(with_entry(list, key, value), key),
        forall|other: Seq<char>|
            has_entry(list, other) ==> #[trigger] has_entry(with_entry(list, key, value), other),
{
    let after = with_entry(list, key, value);
    assert forall|other: Seq<char>| has_entry(list, other) implies #[trigger] has_entry(
        after,
        other,
    ) by {
        let i = choose|i: int| 0 <= i < list.len() && (#[trigger] list[i]).0 == other;
        assert(after[i].0 == other);
    }
    if !has_entry(list, key) {
        assert(after[list.len() as int].0 == key);
        assert forall|i: int, j: int| 0 <= i < j < after.len() implies (#[trigger] after[i]).0 != (
        #[trigger] after[j]).0 by {
            assert(list[i].0 != key);
        }
    }
}

/// What holds of a list that grows along the slots.
spec fn is_walk_of(
    list: Seq<(Seq<char>, ContactInfoView)>,
    leaders: Map<u64, ContactInfoView>,
    start: int,
    end: int,
) -> bool {
    &&& has_distinct_keys(list)
    &&& lists_leaders_of(list, leaders, start, end)
    &&& lists_all_leaders_of(list, leaders, start, end)
    &&& lists_latest_of(list, leaders, start, end)
    &&& is_in_slot_order(list, leaders, start)
}

/// A slot that the key does not lead does not change which of its slots is the last.
proof fn lemma_latest_next(
    info: ContactInfoView,
    key: Seq<char>,
    leaders: Map<u64, ContactInfoView>,
    start: int,
    slot: int,
)
    requires
        0 <= slot <= u64::MAX,
        is_latest(info, key, leaders, start, slot),
        leaders.contains_key(slot as u64) ==> leaders[slot as u64].pubkey != key,
    ensures
        is_latest(info, key, leaders, start, slot + 1),
{
    let t = choose|t: u64|
        {
            &&& #[trigger] leaders.contains_key(t)
            &&& start <= t < slot
            &&& leaders[t] == info
            &&& info.pubkey == key
            &&& forall|later: u64| #[trigger]
                leaders.contains_key(later) && t < later < slot ==> leaders[later].pubkey != key
        };
    assert(leaders.contains_key(t));
}

proof fn lemma_walk_step(
    leaders: Map<u64, ContactInfoView>,
    start: int,
    slot: int,
    list: Seq<(Seq<char>, ContactInfoView)>,
)
    requires
        0 <= start <= slot <= u64::MAX,
        is_walk_of(list, leaders, start, slot),
    ensures
        is_walk_of(with_leader_of(leaders, slot, list), leaders, start, slot + 1),
        with_leader_of(leaders, slot, list).len() <= list.len() + 1,
{
    let after = with_leader_of(leaders, slot, list);
    assert forall|i: int| 0 <= i < list.len() implies leads_one_of(
        #[trigger] list[i].1,
        leaders,
        start,
        slot + 1,
    ) by {
        assert(leads_one_of(list[i].1, leaders, start, slot));
        let s = choose|s: u64| #[trigger]
            leaders.contains_key(s) && start <= s < slot && leaders[s] == list[i].1;
        assert(leaders.contains_key(s));
    }
    if leaders.contains_key(slot as u64) {
        let leader = leaders[slot as u64];
        lemma_with_entry(list, leader.pubkey, leader);
        assert(leads_one_of(leader, leaders, start, slot + 1));
        assert forall|i: int| 0 <= i < after.len() implies (#[trigger] after[i]).1.pubkey
            == after[i].0 && leads_one_of(after[i].1, leaders, start, slot + 1) by {
            if i < list.len() {
                assert(list[i].1.pubkey == list[i].0);
            }
        }
        assert forall|s: u64| #[trigger]
            leaders.contains_key(s) && start <= s < slot + 1 implies has_entry(
            after,
            leaders[s].pubkey,
        ) by {
            if s < slot {
                assert(has_entry(list, leaders[s].pubkey));
            }
        }
        assert forall|i: int, j: int, s: u64|
            #![trigger after[i], after[j], leaders.contains_key(s)]
            0 <= i < j < after.len() && leaders.contains_key(s) && start <= s && leaders[s].pubkey
                == after[j].0 implies key_leads_one_of(after[i].0, leaders, start, s as int) by {
            assert(after[i].0 == list[i].0);
            if j < list.len() {
                assert(after[j].0 == list[j].0);
            } else {
                if s < slot {
                    assert(has_entry(list, leader.pubkey));
                }
                assert(leads_one_of(list[i].1, leaders, start, slot));
                let t = choose|t: u64| #[trigger]
                    leaders.contains_key(t) && start <= t < slot && leaders[t] == list[i].1;
                assert(leaders.contains_key(t) && start <= t < s && leaders[t].pubkey
                    == list[i].0);
            }
        }
        assert forall|i: int| 0 <= i < after.len() implies is_latest(
            (#[trigger] after[i]).1,
            after[i].0,
            leaders,
            start,
            slot + 1,
        ) by {
            if after[i].0 == leader.pubkey {
                assert(after[i].1 == leader);
            } else {
                assert(after[i] == list[i]);
                lemma_latest_next(list[i].1, list[i].0, leaders, start, slot);
            }
        }
    } else {
        assert forall|i: int| 0 <= i < list.len() implies is_latest(
            (#[trigger] list[i]).1,
            list[i].0,
            leaders,
            start,
            slot + 1,
        ) by {
            lemma_latest_next(list[i].1, list[i].0, leaders, start, slot);
        }
    }
}

proof fn lemma_leaders_from(
    leaders: Map<u64, ContactInfoView>,
    start: int,
    slot: int,
    end_slot: int,
    num_leaders: nat,
    list: Seq<(Seq<char>, ContactInfoView)>,
)
    requires
        0 <= start <= slot,
        end_slot <= u64::MAX + 1,
        is_walk_of(list, leaders, start, slot),
        list.len() < num_leaders || (list.len() == 0 && num_leaders == 0 && slot == end_slot),
        slot <= end_slot,
    ensures
        ({
            let found = leaders_from(leaders, slot, end_slot, num_leaders, list);
            &&& found.len() <= num_leaders
            &&& has_distinct_keys(found)
            &&& lists_leaders_of(found, leaders, start, end_slot)
            &&& found.len() < num_leaders ==> lists_all_leaders_of(found, leaders, start, end_slot)
            &&& is_in_slot_order(found, leaders, start)
            &&& exists|stop: int| #[trigger]
                is_search_end(found, leaders, start, end_slot, num_leaders, stop)
        }),
    decreases end_slot - slot,
{
    if slot < end_slot {
        let next = with_leader_of(leaders, slot, list);
        lemma_walk_step(leaders, start, slot, list);
        if next.len() < num_leaders {
            lemma_leaders_from(leaders, start, slot + 1, end_slot, num_leaders, next);
        } else {
            assert forall|i: int| 0 <= i < next.len() implies (#[trigger] next[i]).1.pubkey
                == next[i].0 && leads_one_of(next[i].1, leaders, start, end_slot) by {
                assert(leads_one_of(next[i].1, leaders, start, slot + 1));
                let s = choose|s: u64| #[trigger]
                    leaders.contains_key(s) && start <= s < slot + 1 && leaders[s] == next[i].1;
                assert(leaders.contains_key(s));
            }
            assert(is_search_end(next, leaders, start, end_slot, num_leaders, slot + 1));
        }
    } else {
        assert(is_search_end(list, leaders, start, end_slot, num_leaders, end_slot));
    }
}

/// The search covers four slots for each leader that is asked for. The leaders to reach are different,
/// at most as many as asked for, and each of them leads one of the searched slots. If there are fewer
/// than asked for, then no leader of a searched slot is missing. They come in the order of the slots
/// that they lead first, and each of them leads a slot before every searched slot whose leader is not
/// among them. The search ends where there are enough of them, and each comes with what the last slot
/// of its key before that end says of it.
pub proof fn lemma_next_leaders(tracker: LeaderTrackerView)
    requires
        tracker.cur_slot + 4 * tracker.num_leaders <= u64::MAX,
    ensures
        ({
            let list = tracker.next_leaders();
            let end = tracker.cur_slot + 4 * tracker.num_leaders;
            let start = tracker.cur_slot as int;
            &&& list.len() <= tracker.num_leaders
            &&& has_distinct_keys(list)
            &&& lists_leaders_of(list, tracker.leaders, start, end)
            &&& list.len() < tracker.num_leaders ==> lists_all_leaders_of(
                list,
                tracker.leaders,
                start,
                end,
            )
            &&& is_in_slot_order(list, tracker.leaders, start)
            &&& is_ahead_of_unlisted(list, tracker.leaders, start, end)
            &&& exists|stop: int| #[trigger]
                is_search_end(
                    list,
                    tracker.leaders,
                    start,
                    end,
                    tracker.num_leaders as nat,
                    stop,
                )
        }),
{
    let list = tracker.next_leaders();
    let leaders = tracker.leaders;
    let start = tracker.cur_slot as int;
    let end = tracker.cur_slot + 4 * tracker.num_leaders;
    lemma_leaders_from(
        tracker.leaders,
        tracker.cur_slot as int,
        tracker.cur_slot as int,
        end,
        tracker.num_leaders as nat,
        Seq::<(Seq<char>, ContactInfoView)>::empty(),
    );
    let stop = choose|stop: int| #[trigger]
        is_search_end(
            list,
            leaders,
            start,
            end,
            tracker.num_leaders as nat,
            stop,
        );
    assert forall|i: int, slot: u64|
        #![trigger list[i], leaders.contains_key(slot)]
        0 <= i < list.len() && leaders.contains_key(slot) && start <= slot < end
            && !has_entry(list, leaders[slot].pubkey) implies key_leads_one_of(
        list[i].0,
        leaders,
        start,
        slot as int,
    ) by {
        assert(slot >= stop);
        assert(is_latest(list[i].1, list[i].0, leaders, start, stop));
    }
}

/// What is listed is the leaders to reach, all of them and in their order, each under its own key.
pub proof fn lemma_listed(tracker: LeaderTrackerImpl)
    requires
        tracker@.cur_slot + 4 * tracker@.num_leaders <= u64::MAX,
    ensures
        tracker.listed().len() == tracker@.next_leaders().len(),
        forall|i: int|
            0 <= i < tracker.listed().len() ==> (#[trigger] tracker.listed()[i])
                == tracker@.next_leaders()[i].1 && tracker.listed()[i].pubkey
                == tracker@.next_leaders()[i].0,
{
    lemma_next_leaders(tracker@);
}

/// The leaders that are listed are different, and each of them leads a slot of the next four times as
/// many as are asked for. Where fewer are listed than asked for, every known leader of one of these
/// slots is.
pub proof fn lemma_listed_leaders(tracker: LeaderTrackerImpl)
    requires
        tracker@.cur_slot + 4 * tracker@.num_leaders <= u64::MAX,
    ensures
        tracker.listed().len() <= tracker@.num_leaders,
        forall|i: int, j: int|
            0 <= i < j < tracker.listed().len() ==> (#[trigger] tracker.listed()[i]).pubkey != (
            #[trigger] tracker.listed()[j]).pubkey,
        forall|i: int|
            0 <= i < tracker.listed().len() ==> leads_one_of(
                #[trigger] tracker.listed()[i],
                tracker@.leaders,
                tracker@.cur_slot as int,
                tracker@.cur_slot + 4 * tracker@.num_leaders,
            ),
        tracker.listed().len() < tracker@.num_leaders ==> forall|slot: u64| #[trigger]
            tracker@.leaders.contains_key(slot) && tracker@.cur_slot <= slot < tracker@.cur_slot + 4
                * tracker@.num_leaders ==> is_listed(tracker.listed(), tracker@.leaders[slot].pubkey),
{
    lemma_next_leaders(tracker@);
    lemma_listed(tracker);
    let list = tracker@.next_leaders();
    let listed = tracker.listed();
    assert forall|i: int, j: int| 0 <= i < j < listed.len() implies (#[trigger] listed[i]).pubkey != (
    #[trigger] listed[j]).pubkey by {
        assert(list[i].0 != list[j].0);
    }
    assert forall|i: int| 0 <= i < listed.len() implies leads_one_of(
        #[trigger] listed[i],
        tracker@.leaders,
        tracker@.cur_slot as int,
        tracker@.cur_slot + 4 * tracker@.num_leaders,
    ) by {
        assert(list[i].1 == listed[i]);
    }
    if listed.len() < tracker@.num_leaders {
        assert forall|slot: u64| #[trigger]
            tracker@.leaders.contains_key(slot) && tracker@.cur_slot <= slot < tracker@.cur_slot + 4
                * tracker@.num_leaders implies is_listed(
            listed,
            tracker@.leaders[slot].pubkey,
        ) by {
            let key = tracker@.leaders[slot].pubkey;
            assert(has_entry(list, key));
            let i = choose|i: int| 0 <= i < list.len() && (#[trigger] list[i]).0 == key;
            assert(listed[i].pubkey == key);
        }
    }
}

/// Whether a public key is on a list of leaders.
pub open spec fn is_listed(list: Seq<ContactInfoView>, key: Seq<char>) -> bool {
    exists|i: int| 0 <= i < list.len() && (#[trigger] list[i]).pubkey == key
}

/// Whether as many different leaders as are asked for, named by `names`, have four known slots each
/// from the current slot on, one behind the other.
pub open spec fn lead_in_turn(tracker: LeaderTrackerView, names: Seq<Seq<char>>) -> bool {
    &&& names.len() == tracker.num_leaders
    &&& names.no_duplicates()
    &&& forall|slot: u64|
        tracker.cur_slot <= slot < tracker.cur_slot + 4 * names.len() ==> #[trigger]
        tracker.leaders.contains_key(slot) && tracker.leaders[slot].pubkey == names[(slot
            - tracker.cur_slot) / 4]
}

/// Where as many different leaders as are asked for lead four known slots each from the current slot on,
/// exactly these are listed, in their order.
pub proof fn lemma_leaders_in_turn(tracker: LeaderTrackerImpl, names: Seq<Seq<char>>)
    requires
        tracker@.cur_slot + 4 * tracker@.num_leaders <= u64::MAX,
        lead_in_turn(tracker@, names),
    ensures
        tracker.listed().len() == names.len(),
        forall|i: int|
            0 <= i < names.len() ==> (#[trigger] tracker.listed()[i]).pubkey == names[i],
{
    let list = tracker@.next_leaders();
    let listed = tracker.listed();
    let leaders = tracker@.leaders;
    let start = tracker@.cur_slot as int;
    lemma_next_leaders(tracker@);
    lemma_listed(tracker);
    lemma_listed_leaders(tracker);
    if listed.len() < names.len() {
        let keys = listed.map_values(|leader: ContactInfoView| leader.pubkey);
        names.unique_seq_to_set();
        assert forall|i: int, j: int| 0 <= i < j < keys.len() implies keys[i] != keys[j] by {
            assert(listed[i].pubkey != listed[j].pubkey);
        }
        keys.unique_seq_to_set();
        assert(names.to_set().subset_of(keys.to_set())) by {
            assert forall|name: Seq<char>| names.to_set().contains(name) implies keys.to_set().contains(
                name,
            ) by {
                let k = names.index_of(name);
                let slot = (start + 4 * k) as u64;
                assert(leaders.contains_key(slot));
                assert(is_listed(listed, leaders[slot].pubkey));
                let i = choose|i: int| 0 <= i < listed.len() && (#[trigger] listed[i]).pubkey == name;
                assert(keys[i] == name);
            }
        }
        vstd::set_lib::lemma_len_subset(names.to_set(), keys.to_set());
    }
    let turns = Seq::new(names.len(), |i: int| names.index_of(list[i].0));
    assert forall|i: int| 0 <= i < turns.len() implies 0 <= #[trigger] turns[i] < turns.len()
        && names[turns[i]] == list[i].0 by {
        let turn = lemma_has_turn(tracker, names, i);
        assert(names.contains(list[i].0));
    }
    assert forall|i: int, j: int| 0 <= i < j < turns.len() implies #[trigger] turns[i]
        < #[trigger] turns[j] by {
        lemma_turns_ascend(tracker, names, i, j, turns[i], turns[j]);
    }
    assert forall|i: int| 0 <= i < names.len() implies (#[trigger] listed[i]).pubkey == names[i] by {
        lemma_ascending_below_count(turns, i);
    }
}

/// Ascending numbers below their count are all the numbers below it.
proof fn lemma_ascending_below_count(turns: Seq<int>, i: int)
    requires
        forall|a: int| 0 <= a < turns.len() ==> 0 <= #[trigger] turns[a] < turns.len(),
        forall|a: int, b: int|
            0 <= a < b < turns.len() ==> #[trigger] turns[a] < #[trigger] turns[b],
        0 <= i < turns.len(),
    ensures
        turns[i] == i,
{
    lemma_ascending_from_below(turns, i);
    lemma_ascending_from_above(turns, i);
}

proof fn lemma_ascending_from_below(turns: Seq<int>, i: int)
    requires
        forall|a: int| 0 <= a < turns.len() ==> 0 <= #[trigger] turns[a] < turns.len(),
        forall|a: int, b: int|
            0 <= a < b < turns.len() ==> #[trigger] turns[a] < #[trigger] turns[b],
        0 <= i < turns.len(),
    ensures
        turns[i] >= i,
    decreases i,
{
    if i > 0 {
        lemma_ascending_from_below(turns, i - 1);
    }
}

proof fn lemma_ascending_from_above(turns: Seq<int>, i: int)
    requires
        forall|a: int| 0 <= a < turns.len() ==> 0 <= #[trigger] turns[a] < turns.len(),
        forall|a: int, b: int|
            0 <= a < b < turns.len() ==> #[trigger] turns[a] < #[trigger] turns[b],
        0 <= i < turns.len(),
    ensures
        turns[i] <= i,
    decreases turns.len() - i,
{
    if i < turns.len() - 1 {
        lemma_ascending_from_above(turns, i + 1);
    }
}

/// Of two leaders that are listed, the first one has the earlier turn.
proof fn lemma_turns_ascend(
    tracker: LeaderTrackerImpl,
    names: Seq<Seq<char>>,
    i: int,
    j: int,
    turn_i: int,
    turn_j: int,
)
    requires
        tracker@.cur_slot + 4 * tracker@.num_leaders <= u64::MAX,
        lead_in_turn(tracker@, names),
        is_in_slot_order(
            tracker@.next_leaders(),
            tracker@.leaders,
            tracker@.cur_slot as int,
        ),
        0 <= i < j < tracker@.next_leaders().len(),
        0 <= turn_i < names.len(),
        0 <= turn_j < names.len(),
        tracker@.next_leaders()[i].0 == names[turn_i],
        tracker@.next_leaders()[j].0 == names[turn_j],
    ensures
        turn_i < turn_j,
{
    let start = tracker@.cur_slot as int;
    let slot = (start + 4 * turn_j) as u64;
    assert((slot - start) / 4 == turn_j);
    assert(tracker@.leaders.contains_key(slot));
    assert(key_leads_one_of(names[turn_i], tracker@.leaders, start, slot as int));
    if turn_i >= turn_j {
        lemma_no_earlier_turn(tracker, names, turn_i, slot as int);
    }
}

/// A leader that is listed has a turn.
proof fn lemma_has_turn(tracker: LeaderTrackerImpl, names: Seq<Seq<char>>, i: int) -> (turn: int)
    requires
        tracker@.cur_slot + 4 * tracker@.num_leaders <= u64::MAX,
        lead_in_turn(tracker@, names),
        0 <= i < tracker.listed().len(),
    ensures
        0 <= turn < names.len(),
        tracker@.next_leaders()[i].0 == names[turn],
{
    lemma_next_leaders(tracker@);
    lemma_listed(tracker);
    let start = tracker@.cur_slot as int;
    let end = tracker@.cur_slot + 4 * tracker@.num_leaders;
    let list = tracker@.next_leaders();
    let leaders = tracker@.leaders;
    assert(leads_one_of(list[i].1, leaders, start, end));
    let slot = choose|slot: u64| #[trigger]
        leaders.contains_key(slot) && start <= slot < end && leaders[slot] == list[i].1;
    (slot - start) / 4
}

/// A leader leads no slot before its turn.
proof fn lemma_no_earlier_turn(
    tracker: LeaderTrackerImpl,
    names: Seq<Seq<char>>,
    turn: int,
    slot: int,
)
    requires
        tracker@.cur_slot + 4 * tracker@.num_leaders <= u64::MAX,
        lead_in_turn(tracker@, names),
        0 <= turn < names.len(),
        tracker@.cur_slot <= slot <= tracker@.cur_slot + 4 * turn,
    ensures
        !key_leads_one_of(names[turn], tracker@.leaders, tracker@.cur_slot as int, slot),
{
    let leaders = tracker@.leaders;
    let start = tracker@.cur_slot as int;
    assert forall|s: u64| #[trigger] leaders.contains_key(s) && start <= s < slot implies leaders[s].pubkey
        != names[turn] by {
        assert((s - start) / 4 < turn);
    }
}

/// Nodes are known by their public keys: a key is known exactly if a node has it, and then by the last
/// node that has it, with all that this node publishes.
pub proof fn lemma_nodes_by_key(nodes: Seq<ContactInfo>, key: Seq<char>, j: int)
    ensures
        nodes_by_key(contact_views(nodes)).contains_key(key) <==> !is_unknown(nodes, key),
        is_last_node_of(nodes, key, j) ==> publishes(
            nodes_by_key(contact_views(nodes))[key],
            nodes[j],
        ),
    decreases nodes.len(),
{
    let views = contact_views(nodes);
    if nodes.len() > 0 {
        let before = nodes.drop_last();
        let n = nodes.len() - 1;
        lemma_nodes_by_key(before, key, j);
        assert(views.drop_last() =~= contact_views(before));
        assert(views.last() == nodes[n]@);
        if nodes[n].pubkey@ == key {
            assert(!is_unknown(nodes, key));
            if is_last_node_of(nodes, key, j) && j < n {
                assert(nodes[n].pubkey@ != key);
            }
        } else {
            assert(is_unknown(nodes, key) == is_unknown(before, key)) by {
                if is_unknown(nodes, key) {
                    assert forall|k: int| 0 <= k < before.len() implies (
                    #[trigger] before[k]).pubkey@ != key by {
                        assert(nodes[k].pubkey@ != key);
                    }
                }
                if is_unknown(before, key) {
                    assert forall|k: int| 0 <= k < nodes.len() implies (#[trigger] nodes[k]).pubkey@
                        != key by {
                        if k < n {
                            assert(before[k].pubkey@ != key);
                        }
                    }
                }
            }
            if is_last_node_of(nodes, key, j) {
                assert forall|k: int| j < k < before.len() implies (#[trigger] before[k]).pubkey@
                    != key by {
                    assert(nodes[k].pubkey@ != key);
                }
                assert(is_last_node_of(before, key, j));
            }
        }
    }
}

/// Whether the node at a position is the last one with the given public key.
pub open spec fn is_last_node_of(nodes: Seq<ContactInfo>, key: Seq<char>, j: int) -> bool {
    &&& 0 <= j < nodes.len()
    &&& nodes[j].pubkey@ == key
    &&& forall|k: int| j < k < nodes.len() ==> (#[trigger] nodes[k]).pubkey@ != key
}

/// Whether what is known of a node is what it publishes: its key and both addresses.
pub open spec fn publishes(known: ContactInfoView, node: ContactInfo) -> bool {
    &&& known.pubkey == node.pubkey@
    &&& known.tpu is Some == node.tpu is Some
    &&& node.tpu is Some ==> known.tpu->0 == node.tpu->0@
    &&& known.tpu_quic is Some == node.tpu_quic is Some
    &&& node.tpu_quic is Some ==> known.tpu_quic->0 == node.tpu_quic->0@
}

/// Whether no node has the given public key.
pub open spec fn is_unknown(nodes: Seq<ContactInfo>, key: Seq<char>) -> bool {
    forall|j: int| 0 <= j < nodes.len() ==> (#[trigger] nodes[j]).pubkey@ != key
}

/// After a pass, a slot that is not past and whose leader the cluster named is led by the last node
/// with that leader's key, with all that the node publishes. Of every other slot that is not past, the
/// tracker knows what it knew before; of past slots it knows nothing. Neither the current slot nor a
/// setting changes.
pub proof fn lemma_pass(
    before: LeaderTrackerView,
    next_slot: u64,
    slot_leaders: Vec<[u8; 32]>,
    cluster_nodes: Vec<ContactInfo>,
    after: LeaderTrackerView,
    outcome: Result<(), AtlasTxnSenderError>,
    slot: u64,
)
    requires
        is_pass(
            before,
            next_slot,
            ClusterReply::Fetched { slot_leaders, cluster_nodes },
            after,
            outcome,
        ),
    ensures
        outcome is Ok,
        after.cur_slot == before.cur_slot,
        after.num_leaders == before.num_leaders,
        after.leader_offset == before.leader_offset,
        slot < before.cur_slot ==> !after.leaders.contains_key(slot),
        slot >= before.cur_slot && next_slot <= slot < next_slot + slot_leaders@.len() ==> {
            let key = pubkey_text(slot_leaders@[slot - next_slot]@);
            &&& forall|j: int|
                is_last_node_of(cluster_nodes@, key, j) ==> after.leaders.contains_key(slot)
                    && publishes(after.leaders[slot], #[trigger] cluster_nodes@[j])
            &&& is_unknown(cluster_nodes@, key) ==> same_leader(before.leaders, after.leaders, slot)
        },
        slot >= before.cur_slot && !(next_slot <= slot < next_slot + slot_leaders@.len())
            ==> same_leader(before.leaders, after.leaders, slot),
{
    let keys = pubkey_texts(slot_leaders@);
    assert(keys.len() == slot_leaders@.len());
    if next_slot <= slot < next_slot + slot_leaders@.len() {
        let key = pubkey_text(slot_leaders@[slot - next_slot]@);
        assert(keys[slot - next_slot] == key);
        lemma_nodes_by_key(cluster_nodes@, key, 0);
        assert forall|j: int|
            slot >= before.cur_slot && is_last_node_of(
                cluster_nodes@,
                key,
                j,
            ) implies after.leaders.contains_key(slot) && publishes(
            after.leaders[slot],
            #[trigger] cluster_nodes@[j],
        ) by {
            lemma_nodes_by_key(cluster_nodes@, key, j);
            assert(!is_unknown(cluster_nodes@, key));
        }
    }
}

/// Whether two maps agree on the leader of a slot.
pub open spec fn same_leader(
    first: Map<u64, ContactInfoView>,
    second: Map<u64, ContactInfoView>,
    slot: u64,
) -> bool {
    &&& first.contains_key(slot) == second.contains_key(slot)
    &&& first.contains_key(slot) ==> first[slot] == second[slot]
}

/// A pass for which the cluster could not be asked changes nothing and says what failed, and why; the
/// next one comes after a second, and after a minute otherwise.
pub proof fn lemma_failed_pass(
    before: LeaderTrackerView,
    next_slot: u64,
    reply: ClusterReply,
    after: LeaderTrackerView,
    outcome: Result<(), AtlasTxnSenderError>,
)
    requires
        is_pass(before, next_slot, reply, after, outcome),
    ensures
        outcome is Ok <==> reply is Fetched,
        outcome is Err ==> after == before,
        reply matches ClusterReply::NoSlotLeaders(cause) ==> outcome->Err_0.message@
            == "Error getting slot leaders: "@ + cause@,
        reply matches ClusterReply::NoClusterNodes(cause) ==> outcome->Err_0.message@
            == "Error getting cluster nodes: "@ + cause@,
        pause_after(reply) == (if outcome is Ok {
            60u64
        } else {
            1u64
        }),
{
}

/// A reply can be taken in exactly if every slot whose leader is one of the nodes fits into 64 bits.
pub proof fn lemma_reply_fits(
    next_slot: u64,
    slot_leaders: Vec<[u8; 32]>,
    cluster_nodes: Vec<ContactInfo>,
)
    ensures
        reply_fits(next_slot, ClusterReply::Fetched { slot_leaders, cluster_nodes }) <==> forall|
            i: int,
            j: int,
        |
            0 <= i < slot_leaders@.len() && 0 <= j < cluster_nodes@.len() && pubkey_text(
                (#[trigger] slot_leaders@[i])@,
            ) == (#[trigger] cluster_nodes@[j]).pubkey@ ==> next_slot + i <= u64::MAX,
{
    let keys = pubkey_texts(slot_leaders@);
    let nodes = nodes_by_key(contact_views(cluster_nodes@));
    assert forall|i: int| 0 <= i < keys.len() implies (#[trigger] keys[i]) == pubkey_text(
        slot_leaders@[i]@,
    ) && (nodes.contains_key(keys[i]) <==> exists|j: int|
        0 <= j < cluster_nodes@.len() && (#[trigger] cluster_nodes@[j]).pubkey@ == keys[i]) by {
        lemma_nodes_by_key(cluster_nodes@, keys[i], 0);
    }
    if slots_fit(next_slot, keys, nodes) {
        assert forall|i: int, j: int|
            0 <= i < slot_leaders@.len() && 0 <= j < cluster_nodes@.len() && pubkey_text(
                (#[trigger] slot_leaders@[i])@,
            ) == (#[trigger] cluster_nodes@[j]).pubkey@ implies next_slot + i <= u64::MAX by {
            assert(nodes.contains_key(keys[i]));
        }
    } else {
        let i = choose|i: int|
            0 <= i < keys.len() && nodes.contains_key(#[trigger] keys[i]) && next_slot + i
                > u64::MAX;
        let j = choose|j: int|
            0 <= j < cluster_nodes@.len() && (#[trigger] cluster_nodes@[j]).pubkey@ == keys[i];
        assert(pubkey_text(slot_leaders@[i]@) == cluster_nodes@[j].pubkey@);
    }
}

/// The leaders are asked for a thousand slots ahead. That is as far as the search for 250 leaders goes,
/// and no further.
pub proof fn lemma_slots_asked_for(tracker: LeaderTrackerView)
    ensures
        tracker.num_leaders <= 250 <==> tracker.end_slot() <= tracker.cur_slot + SLOT_LEADERS_LIMIT,
        tracker.num_leaders == 250 ==> tracker.end_slot() == tracker.cur_slot + SLOT_LEADERS_LIMIT,
        SLOT_LEADERS_LIMIT == 1_000,
{
}

/// The start slot goes along with the next slot, and lies four slots further for each leader of the
/// offset; without an offset it is the next slot.
pub proof fn lemma_start_slot(next_slot: u64, other_slot: u64, offset: i64, other_offset: i64)
    ensures
        start_slot(next_slot, 0) == next_slot,
        start_slot(next_slot, offset) - start_slot(other_slot, offset) == next_slot - other_slot,
        start_slot(next_slot, offset) - start_slot(next_slot, other_offset) == 4 * (offset
            - other_offset),
        start_slot_fits(next_slot, offset) <==> 0 <= next_slot + 4 * offset <= u64::MAX && i64::MIN
            < 4 * offset <= i64::MAX,
{
}

/// After a pass over the slot leaders that did not fail, the tracker knows no leader of a past slot,
/// it knows every learned leader of a slot that is not past, and what it knew of other slots that
/// are not past it still knows.
pub proof fn lemma_pass_over_slot_leaders(
    known: Map<u64, ContactInfoView>,
    cur_slot: u64,
    next_slot: u64,
    leaders: Seq<Seq<char>>,
    nodes: Map<Seq<char>, ContactInfoView>,
    slot: u64,
)
    ensures
        ({
            let after = without_past(
                with_slot_leaders(known, next_slot, leaders, nodes),
                cur_slot,
            );
            &&& slot < cur_slot ==> !after.contains_key(slot)
            &&& slot >= cur_slot && is_assigned(slot, next_slot, leaders, nodes)
                ==> after.contains_key(slot) && after[slot] == nodes[leaders[slot - next_slot]]
            &&& slot >= cur_slot && !is_assigned(slot, next_slot, leaders, nodes) ==> (
            after.contains_key(slot) == known.contains_key(slot) && (known.contains_key(slot)
                ==> after[slot] == known[slot]))
        }),
{
}

} // verus!
