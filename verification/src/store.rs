//! The store: its settings, its metadata and the names it has open.

use crate::channel;
use crate::channel::{validate_component, ChannelConfig, ChannelOverride, Interval};
use crate::channel_state::ChannelSpec;
use crate::epochs;
use crate::epochs::{EpochStore, Epochs, Opening, Utc};
use crate::error::Error;
use crate::format::{Compression, SpanId};
use crate::fsutil;
use crate::schema;
use crate::schema::{Schema, SchemaError, StorageClass};
use crate::staged::NsId;
use crate::text;
use crate::wire;
use crate::writer::QueueSizes;
use vstd::prelude::*;

verus! {

/// One thing for each storage class.
#[derive(Debug, Clone, Copy, PartialEq, Eq)]
pub struct PerClass<T> {
    pub critical: T,
    pub ordinary: T,
    pub telemetry: T,
}

impl<T> PerClass<T> {
    pub open spec fn at(self, class: StorageClass) -> T {
        match class {
            StorageClass::Critical => self.critical,
            StorageClass::Default => self.ordinary,
            StorageClass::Telemetry => self.telemetry,
        }
    }

    /// The same with another thing for a class.
    pub open spec fn having(self, class: StorageClass, value: T) -> PerClass<T> {
        match class {
            StorageClass::Critical => PerClass { critical: value, ..self },
            StorageClass::Default => PerClass { ordinary: value, ..self },
            StorageClass::Telemetry => PerClass { telemetry: value, ..self },
        }
    }

    pub fn get(&self, class: StorageClass) -> (v: &T)
        ensures
            *v == self.at(class),
    {
        match class {
            StorageClass::Critical => &self.critical,
            StorageClass::Default => &self.ordinary,
            StorageClass::Telemetry => &self.telemetry,
        }
    }

    pub fn set(&mut self, class: StorageClass, value: T)
        ensures
            *final(self) == old(self).having(class, value),
    {
        match class {
            StorageClass::Critical => {
                self.critical = value;
            },
            StorageClass::Default => {
                self.ordinary = value;
            },
            StorageClass::Telemetry => {
                self.telemetry = value;
            },
        }
    }
}

// ---------------------------------------------------------------------------
// Quotas and groups
// ---------------------------------------------------------------------------

/// A namespace's personal quotas inside the class budgets. An ordinary channel
/// has none: it draws on the shared budget of its class.
#[derive(Debug, Clone, Copy)]
pub struct NsQuota {
    pub slots: PerClass<Option<u64>>,
}

impl Default for NsQuota {
    fn default() -> (q: NsQuota)
        ensures
            forall|c: StorageClass| #[trigger] q.slots.at(c) is None,
    {
        NsQuota { slots: PerClass { critical: None, ordinary: None, telemetry: None } }
    }
}

impl NsQuota {
    pub fn new() -> (q: NsQuota)
        ensures
            forall|c: StorageClass| #[trigger] q.slots.at(c) is None,
    {
        NsQuota::default()
    }

    /// Bounds this namespace's channels of a class.
    pub fn limit_bytes(self, class: StorageClass, bytes: u64) -> (q: NsQuota)
        ensures
            q.slots == self.slots.having(class, Some(bytes)),
    {
        let mut q: NsQuota = self;
        q.slots.set(class, Some(bytes));
        q
    }

    pub fn get(&self, class: StorageClass) -> (b: Option<u64>)
        ensures
            b == self.slots.at(class),
    {
        *self.slots.get(class)
    }
}

/// How a group of namespaces differs from the store's shared settings. A group
/// sets neither the budget of a class nor its medium.
#[derive(Debug, Clone, Copy)]
#[must_use]
pub struct GroupPolicy {
    pub channels: PerClass<Option<ChannelOverride>>,
    pub quota: NsQuota,
}

impl Default for GroupPolicy {
    fn default() -> (p: GroupPolicy)
        ensures
            forall|c: StorageClass| #[trigger] p.channels.at(c) is None,
            forall|c: StorageClass| #[trigger] p.quota.slots.at(c) is None,
    {
        GroupPolicy {
            channels: PerClass { critical: None, ordinary: None, telemetry: None },
            quota: NsQuota::default(),
        }
    }
}

impl GroupPolicy {
    pub fn new() -> (p: GroupPolicy)
        ensures
            forall|c: StorageClass| #[trigger] p.channels.at(c) is None,
            forall|c: StorageClass| #[trigger] p.quota.slots.at(c) is None,
    {
        GroupPolicy::default()
    }

    /// How this class's channels differ for the group.
    pub fn channel(self, class: StorageClass, over: ChannelOverride) -> (p: GroupPolicy)
        ensures
            p.channels == self.channels.having(class, Some(over)),
            p.quota == self.quota,
    {
        let mut p: GroupPolicy = self;
        p.channels.set(class, Some(over));
        p
    }

    /// A personal quota for **each** namespace of the group.
    pub fn limit_bytes(self, class: StorageClass, bytes: u64) -> (p: GroupPolicy)
        ensures
            p.channels == self.channels,
            p.quota.slots == self.quota.slots.having(class, Some(bytes)),
    {
        GroupPolicy { channels: self.channels, quota: self.quota.limit_bytes(class, bytes) }
    }
}

/// A namespace belongs to a group: its name begins with the prefix.
pub open spec fn belongs(prefix: Seq<char>, namespace: Seq<char>) -> bool {
    prefix.is_prefix_of(namespace)
}

/// Whether a namespace belongs to a group. The rule is one and the same for
/// writing and for reading.
pub fn in_group(prefix: &str, namespace: &str) -> (yes: bool)
    ensures
        yes == belongs(prefix@, namespace@),
{
    text::has_prefix(namespace, prefix)
}

/// Where a policy with a prefix of this length comes among those already in order:
/// behind every one that is no longer.
pub open spec fn layer_slot(
    groups: Seq<(String, GroupPolicy)>,
    order: Seq<int>,
    len: nat,
) -> int
    decreases order.len(),
{
    if order.len() == 0 || groups[order.last()].0@.len() <= len {
        order.len() as int
    } else {
        layer_slot(groups, order.drop_last(), len)
    }
}

/// The policies of the first `n` groups that a namespace belongs to, from the
/// general to the specific: by the length of their prefixes.
pub open spec fn layering(
    groups: Seq<(String, GroupPolicy)>,
    namespace: Seq<char>,
    n: int,
) -> Seq<int>
    decreases n,
{
    if n <= 0 {
        Seq::empty()
    } else {
        let rest = layering(groups, namespace, n - 1);
        let prefix = groups[n - 1].0@;
        if belongs(prefix, namespace) {
            rest.insert(layer_slot(groups, rest, prefix.len()), n - 1)
        } else {
            rest
        }
    }
}

/// The settings of a class with the policies of a namespace laid over them, one
/// after another.
pub open spec fn laid_over(
    config: ChannelConfig,
    groups: Seq<(String, GroupPolicy)>,
    order: Seq<int>,
    class: StorageClass,
) -> ChannelConfig
    decreases order.len(),
{
    if order.len() == 0 {
        config
    } else {
        let below = laid_over(config, groups, order.drop_last(), class);
        match groups[order.last()].1.channels.at(class) {
            Some(over) => over.over(below),
            None => below,
        }
    }
}

/// The quota of the most specific policy that names one.
pub open spec fn quota_among(
    groups: Seq<(String, GroupPolicy)>,
    order: Seq<int>,
    class: StorageClass,
) -> Option<u64>
    decreases order.len(),
{
    if order.len() == 0 {
        None
    } else {
        match groups[order.last()].1.quota.slots.at(class) {
            Some(q) => Some(q),
            None => quota_among(groups, order.drop_last(), class),
        }
    }
}

proof fn lemma_layer_slot(groups: Seq<(String, GroupPolicy)>, order: Seq<int>, len: nat)
    requires
        by_length(groups, order),
    ensures
        0 <= layer_slot(groups, order, len) <= order.len(),
        forall|k: int|
            0 <= k < layer_slot(groups, order, len) ==> groups[#[trigger] order[k]].0@.len() <= len,
        forall|k: int|
            layer_slot(groups, order, len) <= k < order.len() ==> groups[#[trigger] order[k]].0@.len()
                > len,
    decreases order.len(),
{
    if order.len() > 0 {
        if groups[order.last()].0@.len() <= len {
            assert forall|k: int| 0 <= k < order.len() implies groups[#[trigger] order[k]].0@.len()
                <= len by {
                assert(groups[order[k]].0@.len() <= groups[order[order.len() - 1]].0@.len());
            }
        } else {
            let rest = order.drop_last();
            assert forall|a: int, b: int| 0 <= a <= b < rest.len() implies groups[#[trigger] rest[a]].0@.len()
                <= groups[#[trigger] rest[b]].0@.len() by {
                assert(rest[a] == order[a] && rest[b] == order[b]);
            }
            lemma_layer_slot(groups, rest, len);
            let s = layer_slot(groups, order, len);
            assert forall|k: int| 0 <= k < s implies groups[#[trigger] order[k]].0@.len() <= len by {
                assert(rest[k] == order[k]);
            }
            assert forall|k: int| s <= k < order.len() implies groups[#[trigger] order[k]].0@.len()
                > len by {
                if k < rest.len() {
                    assert(rest[k] == order[k]);
                }
            }
        }
    }
}

/// Policies in the order of the length of their prefixes.
pub open spec fn by_length(groups: Seq<(String, GroupPolicy)>, order: Seq<int>) -> bool {
    forall|a: int, b: int|
        0 <= a <= b < order.len() ==> groups[#[trigger] order[a]].0@.len() <= groups[#[trigger] order[b]].0@.len()
}

/// The layers of a namespace are the policies of all groups it belongs to and of
/// no others, the longest prefix last: it refines the shorter ones, whatever the
/// order they were declared in.
pub proof fn law_a_longer_prefix_refines_a_shorter_one(
    groups: Seq<(String, GroupPolicy)>,
    namespace: Seq<char>,
    n: int,
)
    requires
        0 <= n <= groups.len(),
    ensures
        by_length(groups, layering(groups, namespace, n)),
        forall|k: int|
            0 <= k < layering(groups, namespace, n).len() ==> 0 <= (#[trigger] layering(
                groups,
                namespace,
                n,
            )[k]) < n && belongs(groups[layering(groups, namespace, n)[k]].0@, namespace),
        forall|i: int|
            0 <= i < n && belongs((#[trigger] groups[i]).0@, namespace) ==> layering(
                groups,
                namespace,
                n,
            ).contains(i),
    decreases n,
{
    if n > 0 {
        law_a_longer_prefix_refines_a_shorter_one(groups, namespace, n - 1);
        let rest = layering(groups, namespace, n - 1);
        let prefix = groups[n - 1].0@;
        let order = layering(groups, namespace, n);
        if belongs(prefix, namespace) {
            lemma_layer_slot(groups, rest, prefix.len());
            let s = layer_slot(groups, rest, prefix.len());
            assert(order == rest.insert(s, n - 1));
            assert forall|a: int, b: int| 0 <= a <= b < order.len() implies groups[#[trigger] order[a]].0@.len()
                <= groups[#[trigger] order[b]].0@.len() by {
                if a < s {
                    assert(order[a] == rest[a]);
                } else if a > s {
                    assert(order[a] == rest[a - 1]);
                }
                if b < s {
                    assert(order[b] == rest[b]);
                } else if b > s {
                    assert(order[b] == rest[b - 1]);
                }
            }
            assert forall|k: int| 0 <= k < order.len() implies 0 <= (#[trigger] order[k]) < n
                && belongs(groups[order[k]].0@, namespace) by {
                if k < s {
                    assert(order[k] == rest[k]);
                } else if k > s {
                    assert(order[k] == rest[k - 1]);
                }
            }
            assert forall|i: int| 0 <= i < n && belongs(
                (#[trigger] groups[i]).0@,
                namespace,
            ) implies order.contains(i) by {
                if i == n - 1 {
                    assert(order[s] == i);
                } else {
                    assert(rest.contains(i));
                    let k = rest.index_of(i);
                    if k < s {
                        assert(order[k] == i);
                    } else {
                        assert(order[k + 1] == i);
                    }
                }
            }
        }
    }
}

proof fn lemma_laid_over_keeps(
    config: ChannelConfig,
    groups: Seq<(String, GroupPolicy)>,
    order: Seq<int>,
    class: StorageClass,
)
    ensures
        laid_over(config, groups, order, class).budget_bytes == config.budget_bytes,
        laid_over(config, groups, order, class).custom_root == config.custom_root,
    decreases order.len(),
{
    if order.len() > 0 {
        lemma_laid_over_keeps(config, groups, order.drop_last(), class);
    }
}

/// Whatever the groups say, a class keeps its budget and its medium.
pub proof fn law_groups_leave_budget_and_medium_alone(
    config: ChannelConfig,
    groups: Seq<(String, GroupPolicy)>,
    namespace: Seq<char>,
    class: StorageClass,
)
    ensures
        ({
            let order = layering(groups, namespace, groups.len() as int);
            let laid = laid_over(config, groups, order, class);
            laid.budget_bytes == config.budget_bytes && laid.custom_root == config.custom_root
        }),
{
    lemma_laid_over_keeps(
        config,
        groups,
        layering(groups, namespace, groups.len() as int),
        class,
    );
}

// ---------------------------------------------------------------------------
// Settings
// ---------------------------------------------------------------------------

/// The store's settings. They are built as a chain: a method's result is the
/// settings.
#[derive(Debug)]
#[must_use]
pub struct StoreConfig {
    pub root: String,
    /// The settings of the classes; a class without any gets the defaults with a
    /// budget of `default_budget_bytes`.
    pub channels: PerClass<Option<ChannelConfig>>,
    /// The budget of a class that is not set explicitly.
    pub default_budget_bytes: u64,
    pub queues: QueueSizes,
    /// The ceiling on the bytes that writing channels hold for blocks; `None`
    /// means there is none.
    pub buffer_ceiling_bytes: Option<u64>,
    /// The policies of groups: a name prefix, and how the group differs.
    pub groups: Vec<(String, GroupPolicy)>,
}

/// The settings of a class that is not set explicitly.
pub open spec fn default_config(class: StorageClass, budget_bytes: u64) -> ChannelConfig {
    if class == StorageClass::Critical {
        ChannelConfig {
            budget_bytes,
            segment_bytes: 4_194_304,
            block_max_bytes: 8_192,
            flush_interval: Interval { nanos: 50_000_000 },
            sync_interval: Interval { nanos: 0 },
            compression: Compression::Plain,
            custom_root: None,
        }
    } else {
        ChannelConfig {
            budget_bytes,
            segment_bytes: 8_388_608,
            block_max_bytes: 65_536,
            flush_interval: Interval { nanos: 1_000_000_000 },
            sync_interval: Interval { nanos: 10_000_000_000 },
            compression: Compression::Lz4,
            custom_root: None,
        }
    }
}

pub const SLOW_CRITICAL: &'static str =
    "the critical channel syncs at once — that is the point of it; configure it from ChannelConfig::critical";

pub const CEILING: &'static str = "buffer_ceiling_bytes";

pub const LOW_CEILING: &'static str =
    "the memory ceiling is below four blocks — that is what one writing channel holds, and such a ceiling would only drive the allocator";

pub const EMPTY_PREFIX: &'static str =
    "an empty prefix matches every name — that is the store's settings, not a group's";

pub const BAD_PREFIX: &'static str =
    "the prefix cannot begin a namespace name: ASCII letters, digits, '-', '_' and '.' are allowed";

pub const SECOND_PREFIX: &'static str =
    "two policies for one prefix — there is nothing to answer which of them applies with";

pub const SLOW_CRITICAL_GROUP: &'static str =
    "the critical channel syncs at once — that is the point of it; a group has no right to cancel that";

pub const SMALL_QUOTA: &'static str =
    "the quota is smaller than two segments — rotation would eat the data right after sealing";

/// What is wrong with the settings.
pub enum StoreFault {
    Channel(StorageClass, &'static str),
    Store(&'static str, &'static str),
    Group(int, &'static str),
}

impl StoreConfig {
    /// Settings with a shared budget for every class.
    pub fn new(root: String) -> (c: StoreConfig)
        ensures
            c.root == root,
            forall|k: StorageClass| #[trigger] c.channels.at(k) is None,
            c.default_budget_bytes == 64 * 1024 * 1024,
            c.queues == (QueueSizes { normal: 8192, critical: 1024 }),
            c.buffer_ceiling_bytes is None,
            c.groups@.len() == 0,
    {
        StoreConfig {
            root,
            channels: PerClass { critical: None, ordinary: None, telemetry: None },
            default_budget_bytes: 64 * 1024 * 1024,
            queues: QueueSizes::default(),
            buffer_ceiling_bytes: None,
            groups: Vec::new(),
        }
    }

    /// Bounds the block buffers of the writing channels.
    pub fn with_buffer_ceiling(self, bytes: u64) -> (c: StoreConfig)
        ensures
            c == (StoreConfig { buffer_ceiling_bytes: Some(bytes), ..self }),
    {
        StoreConfig { buffer_ceiling_bytes: Some(bytes), ..self }
    }

    /// The budget of every class that is not set explicitly.
    pub fn with_budget_per_class(self, bytes: u64) -> (c: StoreConfig)
        ensures
            c == (StoreConfig { default_budget_bytes: bytes, ..self }),
    {
        StoreConfig { default_budget_bytes: bytes, ..self }
    }

    pub fn with_queues(self, queues: QueueSizes) -> (c: StoreConfig)
        ensures
            c == (StoreConfig { queues, ..self }),
    {
        StoreConfig { queues, ..self }
    }

    /// Sets the channel settings of a class.
    pub fn channel(self, class: StorageClass, config: ChannelConfig) -> (c: StoreConfig)
        ensures
            c == (StoreConfig {
                channels: self.channels.having(class, Some(config)),
                ..self
            }),
    {
        let mut c: StoreConfig = self;
        c.channels.set(class, Some(config));
        c
    }

    /// Sets the policy of a group: the namespaces whose names begin with `prefix`.
    pub fn group(self, prefix: String, policy: GroupPolicy) -> (c: StoreConfig)
        ensures
            c.groups@ == self.groups@.push((prefix, policy)),
            c == (StoreConfig { groups: c.groups, ..self }),
    {
        let mut c: StoreConfig = self;
        c.groups.push((prefix, policy));
        c
    }

    /// The settings of a class, refined by nobody.
    pub open spec fn class_config(self, class: StorageClass) -> ChannelConfig {
        match self.channels.at(class) {
            Some(c) => c,
            None => default_config(class, self.default_budget_bytes),
        }
    }

    /// The layers of a namespace.
    pub open spec fn layers(self, namespace: Seq<char>) -> Seq<int> {
        layering(self.groups@, namespace, self.groups@.len() as int)
    }

    /// The settings of a class for a namespace.
    pub open spec fn resolved(self, namespace: Option<Seq<char>>, class: StorageClass) -> ChannelConfig {
        match namespace {
            None => self.class_config(class),
            Some(ns) => laid_over(
                self.class_config(class),
                self.groups@,
                self.layers(ns),
                class,
            ),
        }
    }

    /// The policies a namespace belongs to, from the general to the specific, as
    /// positions among the groups.
    pub fn policies_for(&self, namespace: &str) -> (order: Vec<usize>)
        ensures
            order@.map_values(|i: usize| i as int) == self.layers(namespace@),
            forall|k: int| 0 <= k < order@.len() ==> (#[trigger] order@[k]) < self.groups@.len(),
    {
        let mut order: Vec<usize> = Vec::new();
        let ghost groups = self.groups@;
        let ghost as_int = |i: usize| i as int;
        let mut i: usize = 0;
        assert(order@.map_values(as_int) =~= layering(groups, namespace@, 0));
        while i < self.groups.len()
            invariant
                i <= self.groups@.len(),
                groups == self.groups@,
                as_int == (|i: usize| i as int),
                order@.map_values(as_int) == layering(groups, namespace@, i as int),
                forall|k: int| 0 <= k < order@.len() ==> (#[trigger] order@[k]) < i,
            decreases self.groups@.len() - i,
        {
            let ghost rest = layering(groups, namespace@, i as int);
            let ghost had = order@;
            if in_group(self.groups[i].0.as_str(), namespace) {
                let len: usize = text::chars_of(self.groups[i].0.as_str()).len();
                let mut k: usize = order.len();
                assert(rest.take(k as int) =~= rest);
                while k > 0 && text::chars_of(self.groups[order[k - 1]].0.as_str()).len() > len
                    invariant
                        i < self.groups@.len(),
                        groups == self.groups@,
                        order@ == had,
                        as_int == (|i: usize| i as int),
                        had.map_values(as_int) == rest,
                        k <= had.len(),
                        forall|m: int| 0 <= m < had.len() ==> (#[trigger] had[m]) < i,
                        layer_slot(groups, rest, len as nat) == layer_slot(
                            groups,
                            rest.take(k as int),
                            len as nat,
                        ),
                    decreases k,
                {
                    proof {
                        assert(rest[k - 1] == had[k - 1] as int);
                        assert(rest.take(k as int).last() == rest[k - 1]);
                        assert(rest.take(k as int).drop_last() =~= rest.take(k - 1));
                    }
                    k = k - 1;
                }
                proof {
                    if k > 0 {
                        assert(rest[k - 1] == had[k - 1] as int);
                        assert(rest.take(k as int).last() == rest[k - 1]);
                    }
                    assert(layer_slot(groups, rest.take(k as int), len as nat) == k);
                }
                order.insert(k, i);
                assert(order@.map_values(as_int) =~= rest.insert(k as int, i as int));
            }
            i = i + 1;
        }
        order
    }

    /// The settings of a class without any group.
    fn own_config(&self, class: StorageClass) -> (c: ChannelConfig)
        ensures
            c == self.class_config(class),
    {
        match self.channels.get(class) {
            Some(c) => c.clone(),
            None => match class {
                StorageClass::Critical => ChannelConfig::critical(self.default_budget_bytes),
                _ => ChannelConfig::new(self.default_budget_bytes),
            },
        }
    }

    /// The settings of a class, with the groups of a namespace laid over them.
    /// Without a namespace they are the class's own: those answer for the budget
    /// and the medium.
    pub fn config_for(&self, namespace: Option<&str>, class: StorageClass) -> (c: ChannelConfig)
        ensures
            c == self.resolved(
                match namespace {
                    Some(ns) => Some(ns@),
                    None => None,
                },
                class,
            ),
    {
        let mut config: ChannelConfig = self.own_config(class);
        if let Some(ns) = namespace {
            let order: Vec<usize> = self.policies_for(ns);
            let ghost layers = self.layers(ns@);
            let ghost base = self.class_config(class);
            let mut k: usize = 0;
            assert(layers.take(0) =~= Seq::<int>::empty());
            while k < order.len()
                invariant
                    k <= order@.len(),
                    layers == self.layers(ns@),
                    order@.map_values(|i: usize| i as int) == layers,
                    base == self.class_config(class),
                    forall|m: int|
                        0 <= m < order@.len() ==> (#[trigger] order@[m]) < self.groups@.len(),
                    config == laid_over(base, self.groups@, layers.take(k as int), class),
                decreases order@.len() - k,
            {
                let i: usize = order[k];
                proof {
                    assert(layers[k as int] == order@[k as int] as int);
                    assert(layers.take(k + 1).drop_last() =~= layers.take(k as int));
                    assert(layers.take(k + 1).last() == layers[k as int]);
                }
                if let Some(over) = self.groups[i].1.channels.get(class) {
                    over.apply_to(&mut config);
                }
                k = k + 1;
            }
            assert(layers.take(k as int) =~= layers);
        }
        config
    }

    /// The quota a namespace gets from its groups: the most specific of those that
    /// name one.
    pub fn group_quota(&self, namespace: &str, class: StorageClass) -> (q: Option<u64>)
        ensures
            q == quota_among(self.groups@, self.layers(namespace@), class),
    {
        let order: Vec<usize> = self.policies_for(namespace);
        let ghost layers = self.layers(namespace@);
        let mut k: usize = order.len();
        assert(layers.take(k as int) =~= layers);
        while k > 0
            invariant
                k <= order@.len(),
                layers == self.layers(namespace@),
                order@.map_values(|i: usize| i as int) == layers,
                forall|m: int|
                    0 <= m < order@.len() ==> (#[trigger] order@[m]) < self.groups@.len(),
                quota_among(self.groups@, layers, class) == quota_among(
                    self.groups@,
                    layers.take(k as int),
                    class,
                ),
            decreases k,
        {
            let i: usize = order[k - 1];
            proof {
                assert(layers[k - 1] == order@[k - 1] as int);
                assert(layers.take(k as int).drop_last() =~= layers.take(k - 1));
                assert(layers.take(k as int).last() == layers[k - 1]);
            }
            if let Some(q) = self.groups[i].1.quota.get(class) {
                return Some(q);
            }
            k = k - 1;
        }
        None
    }
}

/// The larger of two numbers.
pub open spec fn larger(a: int, b: int) -> int {
    if a >= b {
        a
    } else {
        b
    }
}

/// The block threshold an override sets; nothing where it sets none.
pub open spec fn override_block(over: Option<ChannelOverride>) -> int {
    match over {
        Some(o) => match o.block_max_bytes {
            Some(b) => b as int,
            None => 0,
        },
        None => 0,
    }
}

/// The largest block threshold that the first `n` groups set.
pub open spec fn groups_block(groups: Seq<(String, GroupPolicy)>, n: int) -> int
    decreases n,
{
    if n <= 0 {
        0
    } else {
        let c = groups[n - 1].1.channels;
        larger(
            groups_block(groups, n - 1),
            larger(
                override_block(c.critical),
                larger(override_block(c.ordinary), override_block(c.telemetry)),
            ),
        )
    }
}

/// A quota is smaller than two segments.
pub open spec fn too_small(quota: u64, config: ChannelConfig) -> bool {
    quota < 2 * config.segment_bytes
}

fn is_too_small(quota: u64, config: &ChannelConfig) -> (yes: bool)
    ensures
        yes == too_small(quota, *config),
{
    config.segment_bytes > u64::MAX / 2 || quota < config.segment_bytes * 2
}

impl StoreConfig {
    /// What is wrong with the settings of a class.
    pub open spec fn one_class_fault(self, class: StorageClass) -> Option<StoreFault> {
        match self.class_config(class).fault() {
            Some(reason) => Some(StoreFault::Channel(class, reason)),
            None => None,
        }
    }

    /// What is wrong with the settings of the classes, the critical one first.
    pub open spec fn classes_fault(self) -> Option<StoreFault> {
        if self.class_config(StorageClass::Critical).sync_interval.nanos != 0 {
            Some(StoreFault::Channel(StorageClass::Critical, SLOW_CRITICAL))
        } else if self.one_class_fault(StorageClass::Critical) is Some {
            self.one_class_fault(StorageClass::Critical)
        } else if self.one_class_fault(StorageClass::Default) is Some {
            self.one_class_fault(StorageClass::Default)
        } else {
            self.one_class_fault(StorageClass::Telemetry)
        }
    }

    /// The largest block threshold that is set anywhere.
    pub open spec fn largest_block(self) -> int {
        larger(
            larger(
                self.class_config(StorageClass::Critical).block_max_bytes as int,
                larger(
                    self.class_config(StorageClass::Default).block_max_bytes as int,
                    self.class_config(StorageClass::Telemetry).block_max_bytes as int,
                ),
            ),
            groups_block(self.groups@, self.groups@.len() as int),
        )
    }

    /// A memory ceiling below four blocks bounds nothing: that is what one writing
    /// channel holds.
    pub open spec fn ceiling_fault(self) -> Option<StoreFault> {
        match self.buffer_ceiling_bytes {
            Some(c) => if c < 4 * self.largest_block() && c < u64::MAX {
                Some(StoreFault::Store(CEILING, LOW_CEILING))
            } else {
                None
            },
            None => None,
        }
    }

    /// What is wrong with what a group sets for the channels of a class.
    pub open spec fn group_channel_fault(self, policy: GroupPolicy, class: StorageClass) -> Option<
        &'static str,
    > {
        match policy.channels.at(class) {
            None => None,
            Some(over) => {
                let config = over.over(self.class_config(class));
                if class == StorageClass::Critical && config.sync_interval.nanos != 0 {
                    Some(SLOW_CRITICAL_GROUP)
                } else {
                    config.fault()
                }
            },
        }
    }

    /// What is wrong with the quota a group sets for a class.
    pub open spec fn group_quota_fault(self, policy: GroupPolicy, class: StorageClass) -> Option<
        &'static str,
    > {
        match policy.quota.slots.at(class) {
            None => None,
            Some(quota) => {
                let config = match policy.channels.at(class) {
                    Some(over) => over.over(self.class_config(class)),
                    None => self.class_config(class),
                };
                if too_small(quota, config) {
                    Some(SMALL_QUOTA)
                } else {
                    None
                }
            },
        }
    }

    /// What is wrong with a policy, the channels first, in the order of the
    /// classes.
    pub open spec fn policy_fault(self, policy: GroupPolicy) -> Option<&'static str> {
        if self.group_channel_fault(policy, StorageClass::Critical) is Some {
            self.group_channel_fault(policy, StorageClass::Critical)
        } else if self.group_channel_fault(policy, StorageClass::Default) is Some {
            self.group_channel_fault(policy, StorageClass::Default)
        } else if self.group_channel_fault(policy, StorageClass::Telemetry) is Some {
            self.group_channel_fault(policy, StorageClass::Telemetry)
        } else if self.group_quota_fault(policy, StorageClass::Critical) is Some {
            self.group_quota_fault(policy, StorageClass::Critical)
        } else if self.group_quota_fault(policy, StorageClass::Default) is Some {
            self.group_quota_fault(policy, StorageClass::Default)
        } else {
            self.group_quota_fault(policy, StorageClass::Telemetry)
        }
    }

    /// What is wrong with a group.
    pub open spec fn group_fault(self, i: int) -> Option<&'static str> {
        let prefix = self.groups@[i].0@;
        if prefix.len() == 0 {
            Some(EMPTY_PREFIX)
        } else if channel::component_fault(prefix) is Some {
            Some(BAD_PREFIX)
        } else if exists|j: int| 0 <= j < i && (#[trigger] self.groups@[j]).0@ == prefix {
            Some(SECOND_PREFIX)
        } else {
            self.policy_fault(self.groups@[i].1)
        }
    }

    /// What is wrong with the groups from the `i`-th on: the first fault.
    pub open spec fn groups_fault(self, i: int) -> Option<StoreFault>
        decreases self.groups@.len() - i,
    {
        if i >= self.groups@.len() {
            None
        } else {
            match self.group_fault(i) {
                Some(reason) => Some(StoreFault::Group(i, reason)),
                None => self.groups_fault(i + 1),
            }
        }
    }

    /// What is wrong with the settings, if anything.
    pub open spec fn fault(self) -> Option<StoreFault> {
        if self.classes_fault() is Some {
            self.classes_fault()
        } else if self.ceiling_fault() is Some {
            self.ceiling_fault()
        } else {
            self.groups_fault(0)
        }
    }

    /// An error tells what is wrong.
    pub open spec fn tells(self, fault: StoreFault, e: Error) -> bool {
        match fault {
            StoreFault::Channel(class, reason) => e == (Error::BadChannel {
                class,
                namespace: None,
                reason,
            }),
            StoreFault::Store(setting, reason) => e == (Error::BadStore { setting, reason }),
            StoreFault::Group(i, reason) => e matches Error::BadGroup { prefix, reason: why }
                && prefix@ == self.groups@[i].0@ && why == reason,
        }
    }

    fn check_class(&self, class: StorageClass) -> (r: Result<(), Error>)
        ensures
            match r {
                Ok(_) => self.one_class_fault(class) is None,
                Err(e) => self.one_class_fault(class) is Some && self.tells(
                    self.one_class_fault(class)->0,
                    e,
                ),
            },
    {
        self.own_config(class).validate(class)
    }

    fn check_group_channel(&self, policy: &GroupPolicy, class: StorageClass) -> (r: Result<
        (),
        &'static str,
    >)
        ensures
            match r {
                Ok(_) => self.group_channel_fault(*policy, class) is None,
                Err(reason) => self.group_channel_fault(*policy, class) == Some(reason),
            },
    {
        match policy.channels.get(class) {
            None => Ok(()),
            Some(over) => {
                let mut config: ChannelConfig = self.own_config(class);
                over.apply_to(&mut config);
                if class == StorageClass::Critical && !config.sync_interval.is_zero() {
                    return Err(SLOW_CRITICAL_GROUP);
                }
                config.check()
            },
        }
    }

    fn check_group_quota(&self, policy: &GroupPolicy, class: StorageClass) -> (r: Result<
        (),
        &'static str,
    >)
        ensures
            match r {
                Ok(_) => self.group_quota_fault(*policy, class) is None,
                Err(reason) => self.group_quota_fault(*policy, class) == Some(reason),
            },
    {
        match policy.quota.get(class) {
            None => Ok(()),
            Some(quota) => {
                let mut config: ChannelConfig = self.own_config(class);
                if let Some(over) = policy.channels.get(class) {
                    over.apply_to(&mut config);
                }
                if is_too_small(quota, &config) {
                    Err(SMALL_QUOTA)
                } else {
                    Ok(())
                }
            },
        }
    }

    fn check_policy(&self, policy: &GroupPolicy) -> (r: Result<(), &'static str>)
        ensures
            match r {
                Ok(_) => self.policy_fault(*policy) is None,
                Err(reason) => self.policy_fault(*policy) == Some(reason),
            },
    {
        self.check_group_channel(policy, StorageClass::Critical)?;
        self.check_group_channel(policy, StorageClass::Default)?;
        self.check_group_channel(policy, StorageClass::Telemetry)?;
        self.check_group_quota(policy, StorageClass::Critical)?;
        self.check_group_quota(policy, StorageClass::Default)?;
        self.check_group_quota(policy, StorageClass::Telemetry)
    }

    fn check_group(&self, i: usize) -> (r: Result<(), &'static str>)
        requires
            (i as int) < self.groups@.len(),
        ensures
            match r {
                Ok(_) => self.group_fault(i as int) is None,
                Err(reason) => self.group_fault(i as int) == Some(reason),
            },
    {
        let prefix: &str = self.groups[i].0.as_str();
        if text::chars_of(prefix).len() == 0 {
            return Err(EMPTY_PREFIX);
        }
        if validate_component(prefix).is_err() {
            return Err(BAD_PREFIX);
        }
        let mut j: usize = 0;
        while j < i
            invariant
                j <= i < self.groups@.len(),
                prefix@ == self.groups@[i as int].0@,
                prefix@.len() > 0,
                channel::component_fault(prefix@) is None,
                forall|k: int| 0 <= k < j ==> (#[trigger] self.groups@[k]).0@ != prefix@,
            decreases i - j,
        {
            if text::same_text(self.groups[j].0.as_str(), prefix) {
                assert(self.groups@[j as int].0@ == prefix@);
                return Err(SECOND_PREFIX);
            }
            j = j + 1;
        }
        self.check_policy(&self.groups[i].1)
    }

    fn block_of(over: &Option<ChannelOverride>) -> (n: usize)
        ensures
            n as int == override_block(*over),
    {
        match over {
            Some(o) => match o.block_max_bytes {
                Some(b) => b,
                None => 0,
            },
            None => 0,
        }
    }

    fn max_block(&self) -> (n: usize)
        ensures
            n as int == self.largest_block(),
    {
        let mut most: usize = 0;
        let mut i: usize = 0;
        while i < self.groups.len()
            invariant
                i <= self.groups@.len(),
                most as int == groups_block(self.groups@, i as int),
            decreases self.groups@.len() - i,
        {
            let c = &self.groups[i].1.channels;
            let a: usize = Self::block_of(&c.critical);
            let b: usize = Self::block_of(&c.ordinary);
            let d: usize = Self::block_of(&c.telemetry);
            if a > most {
                most = a;
            }
            if b > most {
                most = b;
            }
            if d > most {
                most = d;
            }
            i = i + 1;
        }
        let a: usize = self.own_config(StorageClass::Critical).block_max_bytes;
        let b: usize = self.own_config(StorageClass::Default).block_max_bytes;
        let d: usize = self.own_config(StorageClass::Telemetry).block_max_bytes;
        if a > most {
            most = a;
        }
        if b > most {
            most = b;
        }
        if d > most {
            most = d;
        }
        most
    }

    /// Checks everything the application set, and what a class gets when nothing
    /// was set for it. Refusing when the store is opened is the only moment at
    /// which a bad setting can still be fixed.
    pub fn validate(&self) -> (r: Result<(), Error>)
        ensures
            match r {
                Ok(_) => self.fault() is None,
                Err(e) => self.fault() is Some && self.tells(self.fault()->0, e),
            },
    {
        if !self.own_config(StorageClass::Critical).sync_interval.is_zero() {
            return Err(
                Error::BadChannel {
                    class: StorageClass::Critical,
                    namespace: None,
                    reason: SLOW_CRITICAL,
                },
            );
        }
        match self.check_class(StorageClass::Critical) {
            Ok(()) => {},
            Err(e) => {
                return Err(e);
            },
        }
        match self.check_class(StorageClass::Default) {
            Ok(()) => {},
            Err(e) => {
                return Err(e);
            },
        }
        match self.check_class(StorageClass::Telemetry) {
            Ok(()) => {},
            Err(e) => {
                return Err(e);
            },
        }
        if let Some(ceiling) = self.buffer_ceiling_bytes {
            let four: u128 = self.max_block() as u128 * 4;
            if (ceiling as u128) < four && ceiling < u64::MAX {
                return Err(Error::BadStore { setting: CEILING, reason: LOW_CEILING });
            }
        }
        let mut i: usize = 0;
        while i < self.groups.len()
            invariant
                i <= self.groups@.len(),
                self.classes_fault() is None,
                self.ceiling_fault() is None,
                self.groups_fault(0) == self.groups_fault(i as int),
            decreases self.groups@.len() - i,
        {
            match self.check_group(i) {
                Ok(()) => {},
                Err(reason) => {
                    let prefix: String = self.groups[i].0.clone();
                    let e = Error::BadGroup { prefix, reason };
                    assert(self.tells(StoreFault::Group(i as int, reason), e));
                    return Err(e);
                },
            }
            i = i + 1;
        }
        Ok(())
    }
}

/// A store whose settings passed keeps its promises to the critical class: it
/// syncs at once, in every namespace.
pub proof fn law_the_critical_class_syncs_at_once(config: StoreConfig, namespace: Seq<char>)
    requires
        config.fault() is None,
    ensures
        config.resolved(None, StorageClass::Critical).sync_interval.nanos == 0,
        config.resolved(Some(namespace), StorageClass::Critical).sync_interval.nanos == 0,
{
    let order = config.layers(namespace);
    law_a_longer_prefix_refines_a_shorter_one(
        config.groups@,
        namespace,
        config.groups@.len() as int,
    );
    lemma_critical_layers(config, order);
}

proof fn lemma_groups_sound(config: StoreConfig, from: int, i: int)
    requires
        config.groups_fault(from) is None,
        0 <= from <= i < config.groups@.len(),
    ensures
        config.group_fault(i) is None,
    decreases i - from,
{
    if from < i {
        lemma_groups_sound(config, from + 1, i);
    }
}

proof fn lemma_critical_layers(config: StoreConfig, order: Seq<int>)
    requires
        config.fault() is None,
        forall|k: int| 0 <= k < order.len() ==> 0 <= (#[trigger] order[k]) < config.groups@.len(),
    ensures
        laid_over(
            config.class_config(StorageClass::Critical),
            config.groups@,
            order,
            StorageClass::Critical,
        ).sync_interval.nanos == 0,
    decreases order.len(),
{
    if order.len() > 0 {
        let rest = order.drop_last();
        assert forall|k: int| 0 <= k < rest.len() implies 0 <= (#[trigger] rest[k])
            < config.groups@.len() by {
            assert(rest[k] == order[k]);
        }
        lemma_critical_layers(config, rest);
        let i = order[order.len() - 1];
        lemma_groups_sound(config, 0, i);
        assert(config.policy_fault(config.groups@[i].1) is None);
        assert(config.group_channel_fault(config.groups@[i].1, StorageClass::Critical) is None);
    }
}

// ---------------------------------------------------------------------------
// Metadata
// ---------------------------------------------------------------------------

/// The name of the lock file in the store root.
pub const LOCK_FILE: &'static str = ".lock";

/// The name of the store's metadata file.
pub const STORE_META: &'static str = "store-meta";

/// The store's metadata.
#[derive(Debug, Clone, Copy, PartialEq, Eq, Structural)]
pub struct StoreMeta {
    /// The version of the container format.
    pub container_version: u8,
    /// The store's identity. It is stamped into every segment, so that files
    /// copied from another device do not blend with the local ones.
    pub store_id: u64,
}

/// How a store's metadata is opened.
#[derive(Debug)]
pub struct MetaOpening {
    pub meta: StoreMeta,
    /// The earlier container version, if the store came up from one.
    pub upgraded_from: Option<u8>,
    /// What has to be written before the store is used.
    pub write: Option<Vec<u8>>,
}

pub const META_DOES_NOT_PARSE: &'static str = "the store metadata does not parse";

/// Why a container from the future is refused.
pub open spec fn future_text(found: u8, current: u8) -> Seq<char> {
    "container version "@ + text::decimal(found as nat) + " is newer than the supported one ("@
        + text::decimal(current as nat)
        + "): this build cannot parse a layout from the future"@
}

fn future_reason(found: u8, current: u8) -> (s: String)
    ensures
        s@ == future_text(found, current),
{
    let mut s = String::new();
    s.push_str("container version ");
    text::push_decimal(&mut s, found as u64);
    s.push_str(" is newer than the supported one (");
    text::push_decimal(&mut s, current as u64);
    s.push_str("): this build cannot parse a layout from the future");
    assert(s@ =~= future_text(found, current));
    s
}

/// The bytes are the metadata.
pub open spec fn meta_in(bytes: Seq<u8>, meta: StoreMeta) -> bool {
    wire::store_meta_of(bytes) == Some((meta.container_version, meta.store_id))
}

/// What opening the metadata comes to. A file that does not parse, or whose version is
/// from the future, is refused; one of an earlier version is rewritten.
pub open spec fn meta_opened(
    bytes: Option<Seq<u8>>,
    current: u8,
    fresh_id: u64,
    path: Seq<char>,
    r: Result<MetaOpening, Error>,
) -> bool {
    match bytes {
        None => {
            &&& r matches Ok(o) && {
                &&& o.meta == (StoreMeta {
                    container_version: current,
                    store_id: fresh_id,
                })
                &&& o.upgraded_from is None
                &&& o.write matches Some(w) && meta_in(w@, o.meta)
            }
        },
        Some(b) => match wire::store_meta_of(b) {
            None => r matches Err(Error::Corrupt { path: p, reason }) && p@ == path
                && reason@ == META_DOES_NOT_PARSE@,
            Some((version, id)) => if version > current {
                r matches Err(Error::Corrupt { path: p, reason }) && p@ == path && reason@
                    == future_text(version, current)
            } else {
                r matches Ok(o) && {
                    &&& o.meta == (StoreMeta { container_version: current, store_id: id })
                    &&& o.upgraded_from == if version < current {
                        Some(version)
                    } else {
                        None
                    }
                    &&& o.write is Some == (version < current)
                    &&& o.write matches Some(w) ==> meta_in(w@, o.meta)
                }
            },
        },
    }
}

/// The metadata on the medium once the store is open.
pub open spec fn meta_left(bytes: Option<Seq<u8>>, o: MetaOpening) -> Option<Seq<u8>> {
    match o.write {
        Some(w) => Some(w@),
        None => bytes,
    }
}

impl StoreMeta {
    /// The bytes of the metadata file.
    pub fn encode(&self) -> (r: Option<Vec<u8>>)
        ensures
            r is Some,
            r->0@ == wire::store_meta_bytes(self.container_version, self.store_id),
            meta_in(r->0@, *self),
    {
        wire::encode_store_meta(self.container_version, self.store_id)
    }

    /// Opens the metadata: what the file holds, `None` where there is no file.
    ///
    /// A store of an earlier version comes up, and its file is rewritten: refusing
    /// would leave a device without a journal after an update. Its identity stays.
    /// A version from the future is refused: there is nothing to guess its layout
    /// with.
    pub fn open(bytes: Option<&Vec<u8>>, current: u8, fresh_id: u64, path: &str) -> (r: Result<
        MetaOpening,
        Error,
    >)
        ensures
            meta_opened(
                match bytes {
                    Some(b) => Some(b@),
                    None => None,
                },
                current,
                fresh_id,
                path@,
                r,
            ),
    {
        match bytes {
            None => {
                let meta = StoreMeta { container_version: current, store_id: fresh_id };
                let write = meta.encode();
                Ok(MetaOpening { meta, upgraded_from: None, write })
            },
            Some(b) => match wire::decode_store_meta(b.as_slice()) {
                None => Err(
                    Error::Corrupt {
                        path: path.to_owned(),
                        reason: META_DOES_NOT_PARSE.to_owned(),
                    },
                ),
                Some((version, id)) => {
                    if version > current {
                        return Err(
                            Error::Corrupt {
                                path: path.to_owned(),
                                reason: future_reason(version, current),
                            },
                        );
                    }
                    let meta = StoreMeta { container_version: current, store_id: id };
                    if version < current {
                        let write = meta.encode();
                        return Ok(MetaOpening { meta, upgraded_from: Some(version), write });
                    }
                    Ok(MetaOpening { meta, upgraded_from: None, write: None })
                },
            },
        }
    }
}

/// What asking for the lock on a store's root came to.
#[derive(Debug)]
pub enum Lock {
    /// It is ours.
    Acquired,
    /// Another opening holds it.
    Held,
    /// It could not be asked for.
    Failed(Error),
}

/// A store is opened by whoever holds the lock on its root; for the others it is busy.
pub open spec fn admitted(root: Seq<char>, lock: Lock, r: Result<(), Error>) -> bool {
    match lock {
        Lock::Acquired => r is Ok,
        Lock::Held => match r {
            Err(Error::StoreBusy(at)) => at@ == root,
            _ => false,
        },
        Lock::Failed(e) => r == Err::<(), Error>(e),
    }
}

/// Whether a store may be opened, by the answer to its lock.
pub fn check_lock(root: &str, lock: Lock) -> (r: Result<(), Error>)
    ensures
        admitted(root@, lock, r),
{
    match lock {
        Lock::Acquired => Ok(()),
        Lock::Held => Err(Error::StoreBusy(root.to_owned())),
        Lock::Failed(e) => Err(e),
    }
}

/// A store is opened by one at a time. While another opening holds its lock it is busy; a
/// second opening once the lock is free goes on where the first stopped: it finds the same
/// metadata and upgrades nothing, and its run is the next one.
pub proof fn law_a_second_opening_goes_on(
    root: Seq<char>,
    meanwhile: Result<(), Error>,
    afterwards: Result<(), Error>,
    bytes: Option<Seq<u8>>,
    current: u8,
    path: Seq<char>,
    ids: (u64, u64),
    first: MetaOpening,
    second: Result<MetaOpening, Error>,
    store: EpochStore,
    file: Seq<u8>,
    opening: Opening,
    kernel_boot_id: [u8; 16],
    boottime_at_init_us: u64,
    floor: Option<u32>,
    next: EpochStore,
)
    requires
        admitted(root, Lock::Held, meanwhile),
        admitted(root, Lock::Acquired, afterwards),
        meta_opened(bytes, current, ids.0, path, Ok(first)),
        meta_opened(meta_left(bytes, first), current, ids.1, path, second),
        exists|e: Epochs, k: [u8; 16], at: u64, f: Option<u32>| #[trigger]
            EpochStore::registered(e, k, at, f, store),
        epochs::file_says(file, store.epochs),
        epochs::loaded_for_write(Some(file), opening),
        EpochStore::registered(
            opening.epochs,
            kernel_boot_id,
            boottime_at_init_us,
            if opening.lost {
                floor
            } else {
                None
            },
            next,
        ),
        store.current.boot_counter < u32::MAX,
    ensures
        meanwhile matches Err(Error::StoreBusy(at)) && at@ == root,
        afterwards is Ok,
        second matches Ok(o) && o.meta == first.meta && o.upgraded_from is None && o.write is None,
        next.current.boot_counter == store.current.boot_counter + 1,
{
    epochs::law_epochs_survive_a_restart(file, store.epochs, store.epochs);
    epochs::law_epochs_survive_a_restart(file, store.epochs, opening.epochs);
    let (e, k, at, f) = choose|e: Epochs, k: [u8; 16], at: u64, f: Option<u32>| #[trigger]
        EpochStore::registered(e, k, at, f, store);
    let n = store.current.boot_counter;
    let before = epochs::run_numbers(e.runs@, f);
    let runs = store.epochs.runs@;
    let numbers = epochs::run_numbers(runs, None);
    assert forall|i: int| 0 <= i < numbers.len() implies #[trigger] numbers[i] <= n by {
        if i < e.runs@.len() {
            assert(numbers[i] == e.runs@[i].boot_counter);
            assert(before[i] == e.runs@[i].boot_counter);
        }
    }
    assert(numbers[runs.len() - 1] == n);
}

/// A store keeps its identity: whoever wrote the metadata, what is read back has
/// the same identifier, and the metadata of an upgraded store says so too.
pub proof fn law_a_store_keeps_its_identity(bytes: Seq<u8>, a: StoreMeta, b: StoreMeta)
    requires
        meta_in(bytes, a),
        meta_in(bytes, b),
    ensures
        a == b,
{
}

/// The beginning of the mix.
pub const FNV_OFFSET: u64 = 0xcbf2_9ce4_8422_2325;

/// The factor of the mix.
pub const FNV_PRIME: u64 = 0x1000_0000_01b3;

/// A number mixed with bytes, one by one.
pub open spec fn mixed(h: u64, bytes: Seq<u8>) -> u64
    decreases bytes.len(),
{
    if bytes.len() == 0 {
        h
    } else {
        let before = mixed(h, bytes.drop_last());
        (((before ^ (bytes.last() as u64)) as int * FNV_PRIME) % 0x1_0000_0000_0000_0000) as u64
    }
}

/// Mixes bytes into a number.
pub fn mix(h: u64, bytes: &[u8]) -> (m: u64)
    ensures
        m == mixed(h, bytes@),
{
    let mut m: u64 = h;
    let mut i: usize = 0;
    assert(bytes@.take(0) =~= Seq::<u8>::empty());
    while i < bytes.len()
        invariant
            i <= bytes@.len(),
            m == mixed(h, bytes@.take(i as int)),
        decreases bytes@.len() - i,
    {
        proof {
            assert(bytes@.take(i + 1).drop_last() =~= bytes@.take(i as int));
            assert(bytes@.take(i + 1).last() == bytes@[i as int]);
        }
        let x: u64 = m ^ (bytes[i] as u64);
        let y: u128 = x as u128 * FNV_PRIME as u128;
        assert(x as int * FNV_PRIME as int <= u64::MAX * u64::MAX) by (nonlinear_arith)
            requires
                0 <= x <= u64::MAX,
                0 <= FNV_PRIME <= u64::MAX,
        ;
        m = (y % 0x1_0000_0000_0000_0000u128) as u64;
        i = i + 1;
    }
    assert(bytes@.take(i as int) =~= bytes@);
    m
}

/// A span number was allocated: numbering skips zero, and past the end of the range
/// it starts over with one.
pub open spec fn numbered(before: u32, after: u32, span: SpanId) -> bool {
    &&& span.0 == if before == 0 {
        1
    } else {
        before
    }
    &&& after == if span.0 == u32::MAX {
        1
    } else {
        (span.0 + 1) as u32
    }
}

/// Allocates a span number. Numbering is local to a run; past the end of the range
/// it starts over with one, so all the others come between two uses of one number.
pub fn next_span_id(counter: &mut u32) -> (id: SpanId)
    ensures
        numbered(*old(counter), *final(counter), id),
        id.0 != 0,
{
    let raw: u32 = if *counter == 0 {
        1
    } else {
        *counter
    };
    *counter = if raw == u32::MAX {
        1
    } else {
        raw + 1
    };
    SpanId(raw)
}

/// The first and the first impossible millisecond of a synchronization:
/// 2001-09-09 and 2100-01-01.
pub const FIRST_PLAUSIBLE_MS: i64 = 1_000_000_000_000;

pub const PAST_PLAUSIBLE_MS: i64 = 4_102_444_800_000;

/// Whether a moment makes sense as a synchronization. Below lie zeros and garbage
/// of clocks that were never set, above overflows: an anchor is retroactive, and
/// one call with garbage would distort the whole boot.
pub fn is_plausible_utc(utc: Utc) -> (yes: bool)
    ensures
        yes == (FIRST_PLAUSIBLE_MS <= utc.millis() < PAST_PLAUSIBLE_MS),
{
    let ms: i64 = utc.timestamp_millis();
    FIRST_PLAUSIBLE_MS <= ms && ms < PAST_PLAUSIBLE_MS
}

/// At how many runs the epochs file is swept at start. The sweep costs a walk over
/// the names of all segments, an entry tens of bytes.
pub const EPOCH_COMPACT_THRESHOLD: usize = 1024;

/// Whether the epochs file has grown enough to be swept.
pub fn wants_compaction(runs: usize) -> (yes: bool)
    ensures
        yes == (runs > EPOCH_COMPACT_THRESHOLD),
{
    runs > EPOCH_COMPACT_THRESHOLD
}

// ---------------------------------------------------------------------------
// Media
// ---------------------------------------------------------------------------

/// The media of directories: the same number for the same directory. Directories
/// on one medium share the pressure of a full one. The main root has number zero.
pub fn media_of(main: &String, bases: &Vec<String>) -> (keys: Vec<u8>)
    requires
        bases@.len() < 255,
    ensures
        keys@.len() == bases@.len(),
        forall|i: int|
            0 <= i < bases@.len() ==> ((#[trigger] keys@[i]) == 0) == (bases@[i]@ == main@),
        forall|i: int, j: int|
            0 <= i < bases@.len() && 0 <= j < bases@.len() ==> ((#[trigger] keys@[i]) == (
            #[trigger] keys@[j])) == (bases@[i]@ == bases@[j]@),
{
    let mut keys: Vec<u8> = Vec::new();
    let mut fresh: u8 = 1;
    let mut i: usize = 0;
    while i < bases.len()
        invariant
            i <= bases@.len() < 255,
            keys@.len() == i,
            1 <= fresh <= i + 1,
            forall|k: int| 0 <= k < i ==> (#[trigger] keys@[k]) < fresh,
            forall|k: int|
                0 <= k < i ==> ((#[trigger] keys@[k]) == 0) == (bases@[k]@ == main@),
            forall|a: int, b: int|
                0 <= a < i && 0 <= b < i ==> ((#[trigger] keys@[a]) == (#[trigger] keys@[b])) == (
                bases@[a]@ == bases@[b]@),
        decreases bases@.len() - i,
    {
        let ghost had = keys@;
        if text::same_text(bases[i].as_str(), main.as_str()) {
            keys.push(0);
            proof {
                assert forall|a: int, b: int| 0 <= a < i + 1 && 0 <= b < i + 1 implies ((
                #[trigger] keys@[a]) == (#[trigger] keys@[b])) == (bases@[a]@ == bases@[b]@) by {
                    if a < i {
                        assert(keys@[a] == had[a]);
                    }
                    if b < i {
                        assert(keys@[b] == had[b]);
                    }
                }
            }
        } else {
            let mut j: usize = 0;
            let mut found: Option<u8> = None;
            while j < i && found.is_none()
                invariant
                    j <= i < bases@.len(),
                    keys@ == had,
                    had.len() == i,
                    match found {
                        None => forall|k: int|
                            0 <= k < j ==> (#[trigger] bases@[k])@ != bases@[i as int]@,
                        Some(key) => exists|k: int|
                            0 <= k < i && (#[trigger] bases@[k])@ == bases@[i as int]@ && had[k]
                                == key,
                    },
                decreases (if found is None {
                    1int
                } else {
                    0
                }) + i - j,
            {
                if text::same_text(bases[j].as_str(), bases[i].as_str()) {
                    found = Some(keys[j]);
                    assert(bases@[j as int]@ == bases@[i as int]@ && had[j as int] == keys@[j as int]);
                } else {
                    j = j + 1;
                }
            }
            match found {
                Some(key) => {
                    keys.push(key);
                    proof {
                        let k = choose|k: int|
                            0 <= k < i && (#[trigger] bases@[k])@ == bases@[i as int]@ && had[k]
                                == key;
                        assert forall|a: int, b: int| 0 <= a < i + 1 && 0 <= b < i + 1 implies ((
                        #[trigger] keys@[a]) == (#[trigger] keys@[b])) == (bases@[a]@
                            == bases@[b]@) by {
                            let x = if a < i {
                                a
                            } else {
                                k
                            };
                            let y = if b < i {
                                b
                            } else {
                                k
                            };
                            assert(keys@[a] == had[x]);
                            assert(keys@[b] == had[y]);
                            assert(bases@[a]@ == bases@[x]@);
                            assert(bases@[b]@ == bases@[y]@);
                            assert((had[x] == had[y]) == (bases@[x]@ == bases@[y]@));
                        }
                        assert((had[k] == 0) == (bases@[k]@ == main@));
                    }
                },
                None => {
                    keys.push(fresh);
                    proof {
                        assert forall|a: int, b: int| 0 <= a < i + 1 && 0 <= b < i + 1 implies ((
                        #[trigger] keys@[a]) == (#[trigger] keys@[b])) == (bases@[a]@
                            == bases@[b]@) by {
                            if a < i {
                                assert(keys@[a] == had[a]);
                                assert(bases@[a]@ != bases@[i as int]@);
                            }
                            if b < i {
                                assert(keys@[b] == had[b]);
                                assert(bases@[b]@ != bases@[i as int]@);
                            }
                        }
                    }
                    fresh = fresh + 1;
                },
            }
        }
        proof {
            assert forall|k: int| 0 <= k < i + 1 implies ((#[trigger] keys@[k]) == 0) == (bases@[k]@
                == main@) by {
                if k < i {
                    assert(keys@[k] == had[k]);
                }
            }
        }
        i = i + 1;
    }
    keys
}

// ---------------------------------------------------------------------------
// Bringing up a namespace
// ---------------------------------------------------------------------------

/// Why a namespace is not brought up.
#[derive(Debug, Clone, Copy, PartialEq, Eq)]
pub enum OpeningFault {
    BadName(&'static str),
    BadSchema(SchemaError),
    Busy,
}

/// The first objection to bringing up a namespace: its name, its schema, or that
/// the name is taken.
pub open spec fn opening_fault(name: Seq<char>, schema: Schema, taken: bool) -> Option<OpeningFault> {
    match channel::component_fault(name) {
        Some(reason) => Some(OpeningFault::BadName(reason)),
        None => match schema.fault() {
            Some(e) => Some(OpeningFault::BadSchema(e)),
            None => if taken {
                Some(OpeningFault::Busy)
            } else {
                None
            },
        },
    }
}

/// Whether a namespace can be brought up.
pub fn check_opening(name: &str, schema: &Schema, taken: bool) -> (r: Result<(), OpeningFault>)
    ensures
        match r {
            Ok(_) => opening_fault(name@, *schema, taken) is None,
            Err(f) => opening_fault(name@, *schema, taken) == Some(f),
        },
{
    match validate_component(name) {
        Ok(()) => {},
        Err(reason) => {
            return Err(OpeningFault::BadName(reason));
        },
    }
    match schema.validate() {
        Ok(()) => {},
        Err(e) => {
            return Err(OpeningFault::BadSchema(e));
        },
    }
    if taken {
        return Err(OpeningFault::Busy);
    }
    Ok(())
}

/// The directory of a channel: the namespace in the root of its class, the class in that.
pub open spec fn channel_dir(root: Seq<char>, name: Seq<char>, class: StorageClass) -> Seq<char> {
    fsutil::joined(fsutil::joined(root, name), class.name())
}

fn make_channel_dir(root: &str, name: &str, class: StorageClass) -> (dir: String)
    ensures
        dir@ == channel_dir(root@, name@, class),
{
    fsutil::join(fsutil::join(root, name).as_str(), class.as_str())
}

impl StoreConfig {
    /// The quota of a namespace in a class: its own beats that of its groups.
    pub open spec fn quota_for(self, name: Seq<char>, own: NsQuota, class: StorageClass) -> Option<
        u64,
    > {
        match own.slots.at(class) {
            Some(q) => Some(q),
            None => quota_among(self.groups@, self.layers(name), class),
        }
    }

    /// A channel as a namespace registers it.
    pub open spec fn is_spec(
        self,
        spec: ChannelSpec,
        name: Seq<char>,
        own: NsQuota,
        roots: PerClass<String>,
        class: StorageClass,
    ) -> bool {
        &&& spec.dir@ == channel_dir(roots.at(class)@, name, class)
        &&& spec.group == class.position()
        &&& spec.quota_bytes == self.quota_for(name, own, class)
        &&& spec.config == self.resolved(Some(name), class)
    }

    /// The quota of a namespace in a class is too small.
    pub open spec fn bad_quota(self, name: Seq<char>, own: NsQuota, class: StorageClass) -> bool {
        self.quota_for(name, own, class) matches Some(q) && too_small(
            q,
            self.resolved(Some(name), class),
        )
    }

    /// The error names the first class whose quota does not hold.
    pub open spec fn names_bad_quota(
        self,
        name: Seq<char>,
        own: NsQuota,
        schema: Schema,
        e: Error,
    ) -> bool {
        exists|i: int|
            {
                &&& 0 <= i < schema.used_classes().len()
                &&& self.bad_quota(name, own, #[trigger] schema.used_classes()[i])
                &&& forall|k: int|
                    0 <= k < i ==> !self.bad_quota(name, own, #[trigger] schema.used_classes()[k])
                &&& e matches Error::BadChannel { class, namespace: Some(ns), reason } && class
                    == schema.used_classes()[i] && ns@ == name && reason == SMALL_QUOTA
            }
    }

    /// The channels of a namespace: one for each class its schema uses.
    pub fn plan_channels(
        &self,
        name: &str,
        schema: &Schema,
        quota: &NsQuota,
        roots: &PerClass<String>,
    ) -> (r: Result<Vec<ChannelSpec>, Error>)
        ensures
            match r {
                Ok(specs) => {
                    &&& specs@.len() == schema.used_classes().len()
                    &&& forall|i: int|
                        0 <= i < specs@.len() ==> self.is_spec(
                            #[trigger] specs@[i],
                            name@,
                            *quota,
                            *roots,
                            schema.used_classes()[i],
                        ) && !self.bad_quota(name@, *quota, schema.used_classes()[i])
                },
                Err(e) => self.names_bad_quota(name@, *quota, *schema, e),
            },
    {
        let classes: Vec<StorageClass> = schema.classes();
        let ghost used = schema.used_classes();
        let mut specs: Vec<ChannelSpec> = Vec::new();
        let mut i: usize = 0;
        while i < classes.len()
            invariant
                i <= classes@.len(),
                classes@ == used,
                used == schema.used_classes(),
                specs@.len() == i,
                forall|k: int|
                    0 <= k < i ==> self.is_spec(
                        #[trigger] specs@[k],
                        name@,
                        *quota,
                        *roots,
                        used[k],
                    ),
                forall|k: int| 0 <= k < i ==> !self.bad_quota(name@, *quota, #[trigger] used[k]),
            decreases classes@.len() - i,
        {
            let ghost had = specs@;
            let class: StorageClass = classes[i];
            let config: ChannelConfig = self.config_for(Some(name), class);
            let personal: Option<u64> = match quota.get(class) {
                Some(q) => Some(q),
                None => self.group_quota(name, class),
            };
            if let Some(q) = personal {
                if is_too_small(q, &config) {
                    assert(self.bad_quota(name@, *quota, used[i as int]));
                    return Err(
                        Error::BadChannel {
                            class,
                            namespace: Some(name.to_owned()),
                            reason: SMALL_QUOTA,
                        },
                    );
                }
            }
            let dir: String = make_channel_dir(roots.get(class).as_str(), name, class);
            specs.push(ChannelSpec { dir, group: class.index(), quota_bytes: personal, config });
            proof {
                assert(!self.bad_quota(name@, *quota, used[i as int]));
                assert forall|k: int| 0 <= k < i + 1 implies self.is_spec(
                    #[trigger] specs@[k],
                    name@,
                    *quota,
                    *roots,
                    used[k],
                ) by {
                    if k < i {
                        assert(specs@[k] == had[k]);
                    }
                }
            }
            i = i + 1;
        }
        Ok(specs)
    }
}

// ---------------------------------------------------------------------------
// The names that are open
// ---------------------------------------------------------------------------

/// The open namespaces: a name opened twice would give two independent states over
/// one directory. A name is taken before its namespace is up, under the same lock
/// that looks it up.
#[derive(Debug)]
pub struct OpenNames {
    names: Vec<(String, Option<NsId>)>,
}

impl OpenNames {
    /// The entries.
    pub closed spec fn entries(&self) -> Seq<(String, Option<NsId>)> {
        self.names@
    }

    /// A name is taken.
    pub open spec fn has(&self, name: Seq<char>) -> bool {
        exists|i: int| 0 <= i < self.entries().len() && (#[trigger] self.entries()[i]).0@ == name
    }

    /// No name is there twice.
    pub open spec fn wf(&self) -> bool {
        forall|i: int, j: int|
            0 <= i < j < self.entries().len() ==> (#[trigger] self.entries()[i]).0@ != (
            #[trigger] self.entries()[j]).0@
    }

    pub fn new() -> (n: OpenNames)
        ensures
            n.wf(),
            n.entries().len() == 0,
    {
        OpenNames { names: Vec::new() }
    }

    fn position(&self, name: &str) -> (i: Option<usize>)
        ensures
            match i {
                Some(k) => k < self.entries().len() && self.entries()[k as int].0@ == name@,
                None => !self.has(name@),
            },
    {
        let mut i: usize = 0;
        while i < self.names.len()
            invariant
                i <= self.names@.len(),
                forall|k: int| 0 <= k < i ==> (#[trigger] self.names@[k]).0@ != name@,
            decreases self.names@.len() - i,
        {
            if text::same_text(self.names[i].0.as_str(), name) {
                return Some(i);
            }
            i = i + 1;
        }
        None
    }

    /// Whether a name is taken.
    pub fn is_taken(&self, name: &str) -> (yes: bool)
        ensures
            yes == self.has(name@),
    {
        match self.position(name) {
            Some(i) => {
                assert(self.entries()[i as int].0@ == name@);
                true
            },
            None => false,
        }
    }

    /// Takes a name; `false` means it is taken already.
    pub fn reserve(&mut self, name: &str) -> (taken: bool)
        requires
            old(self).wf(),
        ensures
            final(self).wf(),
            taken == !old(self).has(name@),
            !taken ==> final(self).entries() == old(self).entries(),
            taken ==> final(self).has(name@) && final(self).entries().len()
                == old(self).entries().len() + 1 && final(self).entries().drop_last()
                == old(self).entries() && final(self).entries().last().1 is None,
    {
        if self.position(name).is_some() {
            assert(self.has(name@));
            return false;
        }
        self.names.push((name.to_owned(), None));
        proof {
            let n = self.entries();
            assert(n[n.len() - 1].0@ == name@);
            assert(n.drop_last() =~= old(self).entries());
            assert forall|i: int, j: int| 0 <= i < j < n.len() implies (#[trigger] n[i]).0@ != (
            #[trigger] n[j]).0@ by {
                assert(n[i] == old(self).entries()[i]);
                if j < n.len() - 1 {
                    assert(n[j] == old(self).entries()[j]);
                }
            }
        }
        true
    }

    /// Notes which slot the namespace of a taken name got.
    pub fn confirm(&mut self, name: &str, id: NsId)
        requires
            old(self).wf(),
        ensures
            final(self).wf(),
            final(self).entries().len() == old(self).entries().len(),
            forall|i: int|
                0 <= i < old(self).entries().len() ==> {
                    &&& (#[trigger] final(self).entries()[i]).0@ == old(self).entries()[i].0@
                    &&& final(self).entries()[i].1 == if old(self).entries()[i].0@ == name@ {
                        Some(id)
                    } else {
                        old(self).entries()[i].1
                    }
                },
    {
        let ghost before = self.names@;
        match self.position(name) {
            Some(i) => {
                self.names.set(i, (name.to_owned(), Some(id)));
                proof {
                    assert forall|k: int| 0 <= k < before.len() implies {
                        &&& (#[trigger] self.entries()[k]).0@ == before[k].0@
                        &&& self.entries()[k].1 == if before[k].0@ == name@ {
                            Some(id)
                        } else {
                            before[k].1
                        }
                    } by {
                        if k != i {
                            assert(self.entries()[k] == before[k]);
                            if k < i {
                                assert(old(self).entries()[k].0@ != old(self).entries()[i as int].0@);
                            } else {
                                assert(old(self).entries()[i as int].0@ != old(self).entries()[k].0@);
                            }
                        }
                    }
                    assert forall|a: int, b: int| 0 <= a < b < self.entries().len() implies (
                    #[trigger] self.entries()[a]).0@ != (#[trigger] self.entries()[b]).0@ by {
                        assert(old(self).entries()[a].0@ != old(self).entries()[b].0@);
                    }
                }
            },
            None => {
                assert forall|k: int| 0 <= k < before.len() implies (
                #[trigger] self.entries()[k]).0@ != name@ by {
                    if self.entries()[k].0@ == name@ {
                        assert(old(self).has(name@));
                    }
                }
            },
        }
    }

    /// Frees a name.
    pub fn free(&mut self, name: &str)
        requires
            old(self).wf(),
        ensures
            final(self).wf(),
            !final(self).has(name@),
            forall|other: Seq<char>|
                other != name@ ==> #[trigger] final(self).has(other) == old(self).has(other),
    {
        let ghost before = self.names@;
        match self.position(name) {
            None => {},
            Some(i) => {
                self.names.remove(i);
                proof {
                    let after = self.entries();
                    assert(after == before.remove(i as int));
                    assert forall|a: int, b: int| 0 <= a < b < after.len() implies (
                    #[trigger] after[a]).0@ != (#[trigger] after[b]).0@ by {
                        let x = if a < i {
                            a
                        } else {
                            a + 1
                        };
                        let y = if b < i {
                            b
                        } else {
                            b + 1
                        };
                        assert(after[a] == before[x] && after[b] == before[y]);
                        assert(old(self).entries()[x].0@ != old(self).entries()[y].0@);
                    }
                    assert(!self.has(name@)) by {
                        assert forall|k: int| 0 <= k < after.len() implies (
                        #[trigger] after[k]).0@ != name@ by {
                            let x = if k < i {
                                k
                            } else {
                                k + 1
                            };
                            assert(after[k] == before[x]);
                            if x < i {
                                assert(old(self).entries()[x].0@ != old(self).entries()[i as int].0@);
                            } else {
                                assert(old(self).entries()[i as int].0@ != old(self).entries()[x].0@);
                            }
                        }
                    }
                    assert forall|other: Seq<char>| other != name@ implies #[trigger] self.has(
                        other,
                    ) == old(self).has(other) by {
                        if old(self).has(other) {
                            let k = choose|k: int|
                                0 <= k < old(self).entries().len() && (
                                #[trigger] old(self).entries()[k]).0@ == other;
                            let x = if k < i {
                                k
                            } else {
                                k - 1
                            };
                            assert(after[x] == before[k]);
                        }
                        if self.has(other) {
                            let k = choose|k: int|
                                0 <= k < after.len() && (#[trigger] after[k]).0@ == other;
                            let x = if k < i {
                                k
                            } else {
                                k + 1
                            };
                            assert(after[k] == before[x]);
                            assert(old(self).entries()[x].0@ == other);
                        }
                    }
                }
            },
        }
    }
}

// ---------------------------------------------------------------------------
// What the settings promise
// ---------------------------------------------------------------------------

/// What is set for a class is found there, and the other classes keep what they had.
pub proof fn law_each_class_has_its_own<T>(p: PerClass<T>, class: StorageClass, other: StorageClass, value: T)
    ensures
        p.having(class, value).at(class) == value,
        other != class ==> p.having(class, value).at(other) == p.at(other),
        p.at(StorageClass::Critical) == p.critical,
        p.at(StorageClass::Default) == p.ordinary,
        p.at(StorageClass::Telemetry) == p.telemetry,
{
}

/// A name begins with a prefix.
pub open spec fn begins_with(namespace: Seq<char>, prefix: Seq<char>) -> bool {
    prefix.len() <= namespace.len() && namespace.take(prefix.len() as int) == prefix
}

proof fn lemma_quota_among(
    groups: Seq<(String, GroupPolicy)>,
    order: Seq<int>,
    class: StorageClass,
)
    ensures
        match quota_among(groups, order, class) {
            Some(q) => exists|k: int|
                0 <= k < order.len() && groups[#[trigger] order[k]].1.quota.slots.at(class) == Some(
                    q,
                ) && forall|m: int|
                    k < m < order.len() ==> groups[#[trigger] order[m]].1.quota.slots.at(
                        class,
                    ) is None,
            None => forall|k: int|
                0 <= k < order.len() ==> groups[#[trigger] order[k]].1.quota.slots.at(class) is None,
        },
    decreases order.len(),
{
    if order.len() > 0 {
        let rest = order.drop_last();
        let last = order.len() - 1;
        lemma_quota_among(groups, rest, class);
        assert(forall|k: int| 0 <= k < rest.len() ==> rest[k] == #[trigger] order[k]);
        if groups[order[last]].1.quota.slots.at(class) is None {
            if let Some(q) = quota_among(groups, rest, class) {
                let k = choose|k: int|
                    0 <= k < rest.len() && groups[#[trigger] rest[k]].1.quota.slots.at(class)
                        == Some(q) && forall|m: int|
                        k < m < rest.len() ==> groups[#[trigger] rest[m]].1.quota.slots.at(
                            class,
                        ) is None;
                assert(groups[order[k]].1.quota.slots.at(class) == Some(q));
                assert forall|m: int| k < m < order.len() implies groups[
                    #[trigger] order[m]].1.quota.slots.at(class) is None by {
                    if m < last {
                        assert(rest[m] == order[m]);
                    }
                }
            }
        } else {
            assert(groups[order[last]].1.quota.slots.at(class) == quota_among(groups, order, class));
        }
    }
}

/// The quota a namespace gets from its groups is that of the most specific one that names any: a
/// group whose prefix begins the name gives it, and no group with a longer prefix of the name has
/// another. There is none if and only if no group the name belongs to names one.
pub proof fn law_the_most_specific_group_gives_the_quota(
    config: StoreConfig,
    namespace: Seq<char>,
    class: StorageClass,
)
    ensures
        match quota_among(config.groups@, config.layers(namespace), class) {
            Some(q) => exists|i: int|
                {
                    &&& 0 <= i < config.groups@.len()
                    &&& begins_with(namespace, (#[trigger] config.groups@[i]).0@)
                    &&& config.groups@[i].1.quota.slots.at(class) == Some(q)
                    &&& forall|j: int|
                        0 <= j < config.groups@.len() && begins_with(
                            namespace,
                            (#[trigger] config.groups@[j]).0@,
                        ) && config.groups@[j].0@.len() > config.groups@[i].0@.len()
                            ==> config.groups@[j].1.quota.slots.at(class) is None
                },
            None => forall|j: int|
                0 <= j < config.groups@.len() && begins_with(
                    namespace,
                    (#[trigger] config.groups@[j]).0@,
                ) ==> config.groups@[j].1.quota.slots.at(class) is None,
        },
{
    let groups = config.groups@;
    let order = config.layers(namespace);
    law_a_longer_prefix_refines_a_shorter_one(groups, namespace, groups.len() as int);
    lemma_quota_among(groups, order, class);
    assert forall|j: int| 0 <= j < groups.len() && begins_with(
        namespace,
        (#[trigger] groups[j]).0@,
    ) implies order.contains(j) by {
        assert(groups[j].0@ =~= namespace.subrange(0, groups[j].0@.len() as int));
        assert(belongs(groups[j].0@, namespace));
    }
    match quota_among(groups, order, class) {
        Some(q) => {
            let k = choose|k: int|
                0 <= k < order.len() && groups[#[trigger] order[k]].1.quota.slots.at(class) == Some(q)
                    && forall|m: int|
                    k < m < order.len() ==> groups[#[trigger] order[m]].1.quota.slots.at(
                        class,
                    ) is None;
            let i = order[k];
            assert(belongs(groups[i].0@, namespace));
            assert(namespace.take(groups[i].0@.len() as int) =~= groups[i].0@);
            assert forall|j: int| 0 <= j < groups.len() && begins_with(
                namespace,
                (#[trigger] groups[j]).0@,
            ) && groups[j].0@.len() > groups[i].0@.len() implies groups[j].1.quota.slots.at(
                class,
            ) is None by {
                let m = order.index_of(j);
                if m <= k {
                    assert(groups[order[m]].0@.len() <= groups[order[k]].0@.len());
                }
                assert(groups[order[m]].1.quota.slots.at(class) is None);
            }
            assert(begins_with(namespace, groups[i].0@));
        },
        None => {
            assert forall|j: int| 0 <= j < groups.len() && begins_with(
                namespace,
                (#[trigger] groups[j]).0@,
            ) implies groups[j].1.quota.slots.at(class) is None by {
                let m = order.index_of(j);
                assert(groups[order[m]].1.quota.slots.at(class) is None);
            }
        },
    }
}

/// A namespace's own quota beats that of any group; without one it has what its groups give.
pub proof fn law_a_namespaces_own_quota_comes_first(
    config: StoreConfig,
    name: Seq<char>,
    own: NsQuota,
    class: StorageClass,
)
    ensures
        own.slots.at(class) matches Some(q) ==> config.quota_for(name, own, class) == Some(q),
        own.slots.at(class) is None ==> config.quota_for(name, own, class) == quota_among(
            config.groups@,
            config.layers(name),
            class,
        ),
        !config.bad_quota(name, own, class) <==> (config.quota_for(name, own, class) matches Some(q)
            ==> q >= config.resolved(Some(name), class).segment_bytes + config.resolved(
            Some(name),
            class,
        ).segment_bytes),
{
}

/// A setting is the one of the most specific group that sets it: of the groups whose prefix begins
/// the name the one with the longest; where none sets it, it is the class's own.
pub open spec fn is_most_specific<X>(
    groups: Seq<(String, GroupPolicy)>,
    namespace: Seq<char>,
    class: StorageClass,
    set: spec_fn(ChannelOverride) -> Option<X>,
    own: X,
    result: X,
) -> bool {
    ||| exists|i: int|
        {
            &&& 0 <= i < groups.len()
            &&& begins_with(namespace, (#[trigger] groups[i]).0@)
            &&& groups[i].1.channels.at(class) matches Some(o) && set(o) == Some(result)
            &&& forall|j: int|
                0 <= j < groups.len() && begins_with(namespace, (#[trigger] groups[j]).0@)
                    && groups[j].0@.len() > groups[i].0@.len() ==> (groups[j].1.channels.at(
                    class,
                ) matches Some(o) ==> set(o) is None)
        }
    ||| {
        &&& result == own
        &&& forall|j: int|
            0 <= j < groups.len() && begins_with(namespace, (#[trigger] groups[j]).0@) ==> (
            groups[j].1.channels.at(class) matches Some(o) ==> set(o) is None)
    }
}

proof fn lemma_setting_among<X>(
    config: ChannelConfig,
    groups: Seq<(String, GroupPolicy)>,
    order: Seq<int>,
    class: StorageClass,
    set: spec_fn(ChannelOverride) -> Option<X>,
    has: spec_fn(ChannelConfig) -> X,
)
    requires
        forall|o: ChannelOverride, c: ChannelConfig| #[trigger]
            has(o.over(c)) == match set(o) {
                Some(v) => v,
                None => has(c),
            },
    ensures
        ({
            let result = has(laid_over(config, groups, order, class));
            ||| exists|k: int|
                {
                    &&& 0 <= k < order.len()
                    &&& groups[#[trigger] order[k]].1.channels.at(class) matches Some(o) && set(o)
                        == Some(result)
                    &&& forall|m: int|
                        k < m < order.len() ==> (groups[#[trigger] order[m]].1.channels.at(
                            class,
                        ) matches Some(o) ==> set(o) is None)
                }
            ||| {
                &&& result == has(config)
                &&& forall|m: int|
                    0 <= m < order.len() ==> (groups[#[trigger] order[m]].1.channels.at(
                        class,
                    ) matches Some(o) ==> set(o) is None)
            }
        }),
    decreases order.len(),
{
    if order.len() > 0 {
        let rest = order.drop_last();
        let last = order.len() - 1;
        lemma_setting_among(config, groups, rest, class, set, has);
        let result = has(laid_over(config, groups, order, class));
        let below = laid_over(config, groups, rest, class);
        let over = groups[order[last]].1.channels.at(class);
        if over is Some && set(over->0) is Some {
            assert(has((over->0).over(below)) == set(over->0)->0);
            assert(groups[order[last]].1.channels.at(class) == over);
        } else {
            if over is Some {
                assert(has((over->0).over(below)) == has(below));
            }
            assert(result == has(below));
            if exists|k: int|
                {
                    &&& 0 <= k < rest.len()
                    &&& groups[#[trigger] rest[k]].1.channels.at(class) matches Some(o) && set(o)
                        == Some(result)
                    &&& forall|m: int|
                        k < m < rest.len() ==> (groups[#[trigger] rest[m]].1.channels.at(
                            class,
                        ) matches Some(o) ==> set(o) is None)
                } {
                let k = choose|k: int|
                    {
                        &&& 0 <= k < rest.len()
                        &&& groups[#[trigger] rest[k]].1.channels.at(class) matches Some(o) && set(
                            o,
                        ) == Some(result)
                        &&& forall|m: int|
                            k < m < rest.len() ==> (groups[#[trigger] rest[m]].1.channels.at(
                                class,
                            ) matches Some(o) ==> set(o) is None)
                    };
                assert(rest[k] == order[k]);
                assert forall|m: int| k < m < order.len() implies (groups[
                    #[trigger] order[m]].1.channels.at(class) matches Some(o) ==> set(o) is None) by {
                    if m < last {
                        assert(rest[m] == order[m]);
                    }
                }
            } else {
                assert forall|m: int| 0 <= m < order.len() implies (groups[
                    #[trigger] order[m]].1.channels.at(class) matches Some(o) ==> set(o) is None) by {
                    if m < last {
                        assert(rest[m] == order[m]);
                    }
                }
            }
        }
    }
}

proof fn lemma_most_specific<X>(
    config: StoreConfig,
    namespace: Seq<char>,
    class: StorageClass,
    set: spec_fn(ChannelOverride) -> Option<X>,
    has: spec_fn(ChannelConfig) -> X,
)
    requires
        forall|o: ChannelOverride, c: ChannelConfig| #[trigger]
            has(o.over(c)) == match set(o) {
                Some(v) => v,
                None => has(c),
            },
    ensures
        is_most_specific(
            config.groups@,
            namespace,
            class,
            set,
            has(config.class_config(class)),
            has(config.resolved(Some(namespace), class)),
        ),
{
    let groups = config.groups@;
    let order = config.layers(namespace);
    let own = config.class_config(class);
    let result = has(config.resolved(Some(namespace), class));
    law_a_longer_prefix_refines_a_shorter_one(groups, namespace, groups.len() as int);
    lemma_setting_among(own, groups, order, class, set, has);
    assert forall|j: int| 0 <= j < groups.len() && begins_with(
        namespace,
        (#[trigger] groups[j]).0@,
    ) implies order.contains(j) by {
        assert(groups[j].0@ =~= namespace.subrange(0, groups[j].0@.len() as int));
        assert(belongs(groups[j].0@, namespace));
    }
    if exists|k: int|
        {
            &&& 0 <= k < order.len()
            &&& groups[#[trigger] order[k]].1.channels.at(class) matches Some(o) && set(o) == Some(
                result,
            )
            &&& forall|m: int|
                k < m < order.len() ==> (groups[#[trigger] order[m]].1.channels.at(
                    class,
                ) matches Some(o) ==> set(o) is None)
        } {
        let k = choose|k: int|
            {
                &&& 0 <= k < order.len()
                &&& groups[#[trigger] order[k]].1.channels.at(class) matches Some(o) && set(o)
                    == Some(result)
                &&& forall|m: int|
                    k < m < order.len() ==> (groups[#[trigger] order[m]].1.channels.at(
                        class,
                    ) matches Some(o) ==> set(o) is None)
            };
        let i = order[k];
        assert(belongs(groups[i].0@, namespace));
        assert(namespace.take(groups[i].0@.len() as int) =~= groups[i].0@);
        assert forall|j: int| 0 <= j < groups.len() && begins_with(
            namespace,
            (#[trigger] groups[j]).0@,
        ) && groups[j].0@.len() > groups[i].0@.len() implies (groups[j].1.channels.at(
            class,
        ) matches Some(o) ==> set(o) is None) by {
            let m = order.index_of(j);
            if m <= k {
                assert(groups[order[m]].0@.len() <= groups[order[k]].0@.len());
            }
            assert(order[m] == j);
        }
        assert(begins_with(namespace, groups[i].0@));
    } else {
        assert forall|j: int| 0 <= j < groups.len() && begins_with(
            namespace,
            (#[trigger] groups[j]).0@,
        ) implies (groups[j].1.channels.at(class) matches Some(o) ==> set(o) is None) by {
            let m = order.index_of(j);
            assert(order[m] == j);
        }
    }
}

/// Each setting of a namespace's channels, taken by itself, is the one of the most specific group
/// that sets it, and the class's own where no group does; the budget and the medium are the
/// class's in any case.
pub proof fn law_the_most_specific_group_decides_each_setting(
    config: StoreConfig,
    namespace: Seq<char>,
    class: StorageClass,
)
    ensures
        ({
            let own = config.resolved(None, class);
            let result = config.resolved(Some(namespace), class);
            let groups = config.groups@;
            &&& result.budget_bytes == own.budget_bytes
            &&& result.custom_root == own.custom_root
            &&& is_most_specific(
                groups,
                namespace,
                class,
                |o: ChannelOverride| o.segment_bytes,
                own.segment_bytes,
                result.segment_bytes,
            )
            &&& is_most_specific(
                groups,
                namespace,
                class,
                |o: ChannelOverride| o.block_max_bytes,
                own.block_max_bytes,
                result.block_max_bytes,
            )
            &&& is_most_specific(
                groups,
                namespace,
                class,
                |o: ChannelOverride| o.flush_interval,
                own.flush_interval,
                result.flush_interval,
            )
            &&& is_most_specific(
                groups,
                namespace,
                class,
                |o: ChannelOverride| o.sync_interval,
                own.sync_interval,
                result.sync_interval,
            )
            &&& is_most_specific(
                groups,
                namespace,
                class,
                |o: ChannelOverride| o.compression,
                own.compression,
                result.compression,
            )
        }),
{
    law_groups_leave_budget_and_medium_alone(
        config.class_config(class),
        config.groups@,
        namespace,
        class,
    );
    lemma_most_specific(
        config,
        namespace,
        class,
        |o: ChannelOverride| o.segment_bytes,
        |c: ChannelConfig| c.segment_bytes,
    );
    lemma_most_specific(
        config,
        namespace,
        class,
        |o: ChannelOverride| o.block_max_bytes,
        |c: ChannelConfig| c.block_max_bytes,
    );
    lemma_most_specific(
        config,
        namespace,
        class,
        |o: ChannelOverride| o.flush_interval,
        |c: ChannelConfig| c.flush_interval,
    );
    lemma_most_specific(
        config,
        namespace,
        class,
        |o: ChannelOverride| o.sync_interval,
        |c: ChannelConfig| c.sync_interval,
    );
    lemma_most_specific(
        config,
        namespace,
        class,
        |o: ChannelOverride| o.compression,
        |c: ChannelConfig| c.compression,
    );
}

/// A class has the settings it was given. One that was given none has the budget of the store's
/// default; the critical one is then synced at once and not compressed, the others every ten
/// seconds, compressed, and flushed every second.
pub proof fn law_a_class_has_what_it_was_given(config: StoreConfig, class: StorageClass)
    ensures
        config.channels.at(class) matches Some(c) ==> config.resolved(None, class) == c,
        config.channels.at(class) is None ==> {
            let c = config.resolved(None, class);
            &&& c.budget_bytes == config.default_budget_bytes
            &&& c.custom_root is None
            &&& class is Critical ==> c.sync_interval.nanos == 0 && c.compression is Plain
                && c.flush_interval.nanos == 50_000_000 && c.segment_bytes == 4 * 1024 * 1024
                && c.block_max_bytes == 8 * 1024
            &&& !(class is Critical) ==> c.sync_interval.nanos == 10_000_000_000
                && c.compression is Lz4 && c.flush_interval.nanos == 1_000_000_000
                && c.segment_bytes == 8 * 1024 * 1024 && c.block_max_bytes == 64 * 1024
        },
{
}

/// Span numbers are handed out in turn: never zero, each one more than the one before, and one
/// again past the end of the range.
pub proof fn law_span_numbers_are_handed_out_in_turn(a: u32, b: u32, c: u32, first: SpanId, second: SpanId)
    requires
        numbered(a, b, first),
        numbered(b, c, second),
    ensures
        first.0 != 0,
        second.0 != 0,
        first.0 < u32::MAX ==> second.0 == first.0 + 1,
        first.0 == u32::MAX ==> second.0 == 1,
{
}

/// Bytes mixed in one after another come to the same as mixed in together.
pub proof fn law_mixing_goes_byte_by_byte(h: u64, a: Seq<u8>, b: Seq<u8>)
    ensures
        mixed(h, a + b) == mixed(mixed(h, a), b),
        mixed(h, Seq::empty()) == h,
    decreases b.len(),
{
    if b.len() == 0 {
        assert(a + b =~= a);
    } else {
        law_mixing_goes_byte_by_byte(h, a, b.drop_last());
        assert((a + b).drop_last() =~= a + b.drop_last());
    }
}

/// A store of an earlier version or of this one comes up with its own identity, and is rewritten if
/// and only if it is of an earlier one; a store from the future, and one that does not parse, is
/// refused. A new store gets the identity it is given.
pub proof fn law_a_store_comes_up_unless_it_is_from_the_future(
    bytes: Option<Seq<u8>>,
    current: u8,
    fresh_id: u64,
    path: Seq<char>,
    r: Result<MetaOpening, Error>,
    meta: StoreMeta,
)
    requires
        meta_opened(bytes, current, fresh_id, path, r),
    ensures
        bytes is None ==> (r matches Ok(o) && o.meta.store_id == fresh_id && o.write is Some),
        bytes matches Some(b) && meta_in(b, meta) ==> {
            &&& r is Ok <==> meta.container_version <= current
            &&& r matches Ok(o) ==> {
                &&& o.meta.store_id == meta.store_id
                &&& o.meta.container_version == current
                &&& o.write is Some <==> meta.container_version < current
                &&& o.upgraded_from matches Some(v) ==> v == meta.container_version
                &&& o.upgraded_from is Some <==> meta.container_version < current
            }
        },
        bytes matches Some(b) && wire::store_meta_of(b) is None ==> r is Err,
{
}

/// A namespace is brought up if and only if its name is plain, its schema holds together and the
/// name is free.
pub proof fn law_a_name_is_opened_once(name: Seq<char>, schema: Schema, taken: bool)
    ensures
        opening_fault(name, schema, taken) is None <==> {
            &&& channel::component_fault(name) is None
            &&& schema.fault() is None
            &&& !taken
        },
{
}

/// The channels of different namespaces, and of different classes of one, lie in different
/// directories, and all of them inside the root.
pub proof fn law_no_two_channels_share_a_directory(
    root: Seq<char>,
    a: Seq<char>,
    b: Seq<char>,
    x: StorageClass,
    y: StorageClass,
)
    requires
        channel::component_fault(a) is None,
        channel::component_fault(b) is None,
    ensures
        channel_dir(root, a, x) == channel_dir(root, b, y) ==> a == b && x == y,
        channel_dir(root, a, x).take(root.len() as int) == root,
{
    channel::law_a_component_stays_in_its_directory(a);
    channel::law_a_component_stays_in_its_directory(b);
    reveal_strlit("critical");
    reveal_strlit("default");
    reveal_strlit("telemetry");
    let da = fsutil::joined(root, a);
    let db = fsutil::joined(root, b);
    fsutil::law_a_joined_path_leads_into_the_directory(root, a);
    fsutil::law_a_joined_path_leads_into_the_directory(root, b);
    fsutil::law_a_joined_path_leads_into_the_directory(da, x.name());
    fsutil::law_a_joined_path_leads_into_the_directory(db, y.name());
    assert(a.last() != '/') by {
        assert(a.contains(a.last()));
    }
    assert(b.last() != '/') by {
        assert(b.contains(b.last()));
    }
    assert(da.last() == a.last());
    assert(db.last() == b.last());
    let pa = channel_dir(root, a, x);
    let pb = channel_dir(root, b, y);
    assert(pa.take(root.len() as int) =~= root);
    if pa == pb {
        // The last separator stands before the class in both.
        let la = da.len() as int;
        let lb = db.len() as int;
        assert(pa[la] == '/' && pb[lb] == '/');
        assert(pa.skip(pa.len() - x.name().len()) == x.name());
        assert(pb.skip(pb.len() - y.name().len()) == y.name());
        if la < lb {
            assert(pa[lb] == x.name()[lb - la - 1]);
        } else if lb < la {
            assert(pb[la] == y.name()[la - lb - 1]);
        }
        assert(la == lb);
        assert(da =~= db);
        fsutil::law_different_names_are_different_paths(root, a, b);
        assert(x.name() == y.name());
        assert(x.name().len() == y.name().len());
    }
}

proof fn lemma_groups_block(groups: Seq<(String, GroupPolicy)>, n: int, most: int)
    requires
        0 <= n <= groups.len(),
        most >= 0,
    ensures
        groups_block(groups, n) <= most <==> forall|i: int|
            0 <= i < n ==> #[trigger] blocks_within(groups[i].1, most),
    decreases n,
{
    if n > 0 {
        lemma_groups_block(groups, n - 1, most);
        let c = groups[n - 1].1.channels;
        assert(blocks_within(groups[n - 1].1, most) <==> override_block(c.critical) <= most
            && override_block(c.ordinary) <= most && override_block(c.telemetry) <= most) by {
            assert(c.at(StorageClass::Critical) == c.critical);
            assert(c.at(StorageClass::Default) == c.ordinary);
            assert(c.at(StorageClass::Telemetry) == c.telemetry);
        }
    }
}

/// No block threshold that a group sets is larger than this.
pub open spec fn blocks_within(policy: GroupPolicy, most: int) -> bool {
    forall|class: StorageClass|
        #[trigger] policy.channels.at(class) matches Some(o) ==> (o.block_max_bytes matches Some(b)
            ==> b <= most)
}

/// What a group sets fits the store: its settings pass over those of the class, the critical class
/// stays synced at once, and its quotas hold two segments.
pub open spec fn policy_fits(config: StoreConfig, policy: GroupPolicy) -> bool {
    forall|class: StorageClass|
        #![trigger policy.channels.at(class)]
        {
            let own = config.resolved(None, class);
            let laid = match policy.channels.at(class) {
                Some(o) => o.over(own),
                None => own,
            };
            &&& policy.channels.at(class) is Some ==> laid.fault() is None
            &&& policy.channels.at(class) is Some && class is Critical ==> laid.sync_interval.nanos
                == 0
            &&& policy.quota.slots.at(class) matches Some(q) ==> q >= laid.segment_bytes
                + laid.segment_bytes
        }
}

proof fn lemma_policy_fits(config: StoreConfig, policy: GroupPolicy)
    ensures
        config.policy_fault(policy) is None <==> policy_fits(config, policy),
{
    if policy_fits(config, policy) {
        let _ = policy.channels.at(StorageClass::Critical);
        let _ = policy.channels.at(StorageClass::Default);
        let _ = policy.channels.at(StorageClass::Telemetry);
    }
}

proof fn lemma_groups_fit(config: StoreConfig, from: int)
    requires
        0 <= from <= config.groups@.len(),
    ensures
        config.groups_fault(from) is None <==> forall|i: int|
            from <= i < config.groups@.len() ==> {
                &&& channel::component_fault((#[trigger] config.groups@[i]).0@) is None
                &&& forall|j: int|
                    0 <= j < i ==> (#[trigger] config.groups@[j]).0@ != config.groups@[i].0@
                &&& policy_fits(config, config.groups@[i].1)
            },
    decreases config.groups@.len() - from,
{
    if from < config.groups@.len() {
        lemma_groups_fit(config, from + 1);
        lemma_policy_fits(config, config.groups@[from].1);
        let g = config.groups@[from];
        if config.group_fault(from) is None {
            assert forall|j: int| 0 <= j < from implies (#[trigger] config.groups@[j]).0@ != g.0@ by {}
        }
    }
}

/// A store passes if and only if its critical class is synced at once, the settings of each class
/// fit, a ceiling on memory holds four of the largest blocks set anywhere, and each group has a
/// plain prefix of its own and sets what fits.
pub proof fn law_a_store_passes_only_if_its_settings_fit(config: StoreConfig)
    ensures
        config.fault() is None <==> {
            &&& config.resolved(None, StorageClass::Critical).sync_interval.nanos == 0
            &&& config.resolved(None, StorageClass::Critical).fault() is None
            &&& config.resolved(None, StorageClass::Default).fault() is None
            &&& config.resolved(None, StorageClass::Telemetry).fault() is None
            &&& config.buffer_ceiling_bytes matches Some(c) ==> c == u64::MAX || {
                &&& 4 * config.resolved(None, StorageClass::Critical).block_max_bytes <= c
                &&& 4 * config.resolved(None, StorageClass::Default).block_max_bytes <= c
                &&& 4 * config.resolved(None, StorageClass::Telemetry).block_max_bytes <= c
                &&& forall|i: int|
                    0 <= i < config.groups@.len() ==> #[trigger] blocks_within(
                        config.groups@[i].1,
                        c as int / 4,
                    )
            }
            &&& forall|i: int|
                0 <= i < config.groups@.len() ==> {
                    &&& channel::component_fault((#[trigger] config.groups@[i]).0@) is None
                    &&& forall|j: int|
                        0 <= j < i ==> (#[trigger] config.groups@[j]).0@ != config.groups@[i].0@
                    &&& policy_fits(config, config.groups@[i].1)
                }
        },
{
    lemma_groups_fit(config, 0);
    if let Some(c) = config.buffer_ceiling_bytes {
        lemma_groups_block(config.groups@, config.groups@.len() as int, c as int / 4);
    }
}

/// A synchronization is taken for one only between September 2001 and the end of the year 2099, and
/// the epochs file is swept beyond a thousand and twenty-four runs.
pub proof fn law_a_clock_that_was_never_set_is_not_believed(utc: Utc)
    ensures
        FIRST_PLAUSIBLE_MS <= utc.millis() < PAST_PLAUSIBLE_MS <==> 1_000_000_000_000_000
            <= utc.micros < 4_102_444_800_000_000,
        EPOCH_COMPACT_THRESHOLD == 1024,
{
}

/// A channel is set up for its own class: in the class's directory on the class's medium, in the
/// class's group, with the settings and the quota in force for the namespace there.
pub proof fn law_a_channel_is_set_up_for_its_class(
    config: StoreConfig,
    spec: ChannelSpec,
    name: Seq<char>,
    own: NsQuota,
    roots: PerClass<String>,
    class: StorageClass,
)
    requires
        config.is_spec(spec, name, own, roots, class),
    ensures
        class is Critical ==> spec.group == 0 && spec.dir@ == channel_dir(
            roots.critical@,
            name,
            StorageClass::Critical,
        ),
        class is Default ==> spec.group == 1 && spec.dir@ == channel_dir(
            roots.ordinary@,
            name,
            StorageClass::Default,
        ),
        class is Telemetry ==> spec.group == 2 && spec.dir@ == channel_dir(
            roots.telemetry@,
            name,
            StorageClass::Telemetry,
        ),
        own.slots.at(class) is Some ==> spec.quota_bytes == own.slots.at(class),
        spec.config == config.resolved(Some(name), class),
{
}

} // verus!
