//! The store without its files: where classes lie, and how namespaces come up.

use crate::channel;
use crate::channel::validate_component;
use crate::control::NsSetup;
use crate::epochs;
use crate::epochs::{EpochStore, HwBoot, SyncSource, Utc};
use crate::error::Error;
use crate::format::{BootCounter, SpanId};
use crate::namespace::{NsMeta, NsOpening};
use crate::schema;
use crate::schema::{Schema, StorageClass};
use crate::staged::NsId;
use crate::store;
use crate::store::{
    check_opening, is_plausible_utc, media_of, next_span_id, numbered, NsQuota, OpenNames,
    OpeningFault, PerClass, StoreConfig, StoreMeta,
};
use crate::writer_loop::GroupBudget;
use vstd::prelude::*;

verus! {

/// Where the classes lie and what they may take.
#[derive(Debug)]
pub struct ClassLayout {
    /// The base directory of every class.
    pub roots: PerClass<String>,
    /// The budget group of every class.
    pub groups: Vec<GroupBudget>,
    /// Every distinct root, the main one first: what a walk over names visits.
    pub scan_roots: Vec<String>,
}

impl StoreConfig {
    /// The base directory of a class: its own medium, or the shared root.
    pub open spec fn root_text(self, class: StorageClass) -> Seq<char> {
        match self.class_config(class).custom_root {
            Some(r) => r@,
            None => self.root@,
        }
    }

    /// The base directory of a class.
    pub fn class_root(&self, class: StorageClass) -> (root: String)
        ensures
            root@ == self.root_text(class),
    {
        match self.config_for(None, class).custom_root {
            Some(r) => r,
            None => self.root.clone(),
        }
    }

    /// A class lies on a medium that neither the store nor an earlier class lies on.
    pub open spec fn brings_medium(
        main: Seq<char>,
        canonical: PerClass<String>,
        class: StorageClass,
    ) -> bool {
        let base = canonical.at(class)@;
        &&& base != main
        &&& match class {
            StorageClass::Critical => true,
            StorageClass::Default => base != canonical.critical@,
            StorageClass::Telemetry => base != canonical.critical@ && base != canonical.ordinary@,
        }
    }

    /// The base directory of a class, if its medium is a new one.
    pub open spec fn root_to_scan(
        self,
        main: Seq<char>,
        canonical: PerClass<String>,
        class: StorageClass,
    ) -> Seq<Seq<char>> {
        if Self::brings_medium(main, canonical, class) {
            seq![self.root_text(class)]
        } else {
            Seq::empty()
        }
    }

    /// Every distinct root: the main one, then those of the classes on other media.
    pub open spec fn roots_to_scan(self, main: Seq<char>, canonical: PerClass<String>) -> Seq<
        Seq<char>,
    > {
        seq![self.root@] + self.root_to_scan(main, canonical, StorageClass::Critical)
            + self.root_to_scan(main, canonical, StorageClass::Default) + self.root_to_scan(
            main,
            canonical,
            StorageClass::Telemetry,
        )
    }

    /// Lays the classes out. `main` and `canonical` are the directories as the
    /// file system knows them: classes on one medium share its pressure, classes
    /// on different ones do not get in each other's way.
    pub fn lay_out(&self, main: &String, canonical: &PerClass<String>) -> (l: ClassLayout)
        ensures
            forall|c: StorageClass| (#[trigger] l.roots.at(c))@ == self.root_text(c),
            l.groups@.len() == 3,
            forall|c: StorageClass|
                l.groups@[(#[trigger] c.position())].budget_bytes == self.class_config(
                    c,
                ).budget_bytes,
            forall|c: StorageClass|
                (l.groups@[(#[trigger] c.position())].root_key == 0) == (canonical.at(c)@ == main@),
            forall|c: StorageClass, d: StorageClass|
                (l.groups@[(#[trigger] c.position())].root_key
                    == l.groups@[(#[trigger] d.position())].root_key) == (canonical.at(c)@
                    == canonical.at(d)@),
            Seq::new(l.scan_roots@.len(), |k: int| l.scan_roots@[k]@) == self.roots_to_scan(
                main@,
                *canonical,
            ),
            // Every medium is visited.
            forall|c: StorageClass|
                l.groups@[(#[trigger] c.position())].root_key != 0 ==> exists|
                    d: StorageClass,
                    k: int,
                |
                    {
                        &&& canonical.at(d)@ == canonical.at(c)@
                        &&& 0 <= k < l.scan_roots@.len()
                        &&& (#[trigger] l.scan_roots@[k])@ == (#[trigger] l.roots.at(d))@
                    },
    {
        let roots = PerClass {
            critical: self.class_root(StorageClass::Critical),
            ordinary: self.class_root(StorageClass::Default),
            telemetry: self.class_root(StorageClass::Telemetry),
        };
        let mut bases: Vec<String> = Vec::new();
        bases.push(canonical.critical.clone());
        bases.push(canonical.ordinary.clone());
        bases.push(canonical.telemetry.clone());
        let keys: Vec<u8> = media_of(main, &bases);
        let mut groups: Vec<GroupBudget> = Vec::new();
        groups.push(
            GroupBudget {
                budget_bytes: self.config_for(None, StorageClass::Critical).budget_bytes,
                root_key: keys[0],
            },
        );
        groups.push(
            GroupBudget {
                budget_bytes: self.config_for(None, StorageClass::Default).budget_bytes,
                root_key: keys[1],
            },
        );
        groups.push(
            GroupBudget {
                budget_bytes: self.config_for(None, StorageClass::Telemetry).budget_bytes,
                root_key: keys[2],
            },
        );
        let mut scan_roots: Vec<String> = Vec::new();
        scan_roots.push(self.root.clone());
        if keys[0] != 0 {
            scan_roots.push(roots.critical.clone());
        }
        let ghost first = scan_roots@;
        if keys[1] != 0 && keys[1] != keys[0] {
            scan_roots.push(roots.ordinary.clone());
        }
        let ghost second = scan_roots@;
        if keys[2] != 0 && keys[2] != keys[0] && keys[2] != keys[1] {
            scan_roots.push(roots.telemetry.clone());
        }
        let l = ClassLayout { roots, groups, scan_roots };
        proof {
            assert(forall|c: StorageClass|
                (#[trigger] bases@[c.position()])@ == canonical.at(c)@);
            let kc = l.groups@[0].root_key;
            let ko = l.groups@[1].root_key;
            let kt = l.groups@[2].root_key;
            assert(keys@[0] == kc && keys@[1] == ko && keys@[2] == kt);
            assert forall|c: StorageClass|
                (l.groups@[(#[trigger] c.position())].root_key == 0) == (canonical.at(c)@
                    == main@) by {
                assert(keys@[c.position()] == l.groups@[c.position()].root_key);
            }
            assert forall|c: StorageClass, d: StorageClass|
                (l.groups@[(#[trigger] c.position())].root_key
                    == l.groups@[(#[trigger] d.position())].root_key) == (canonical.at(c)@
                    == canonical.at(d)@) by {
                assert(keys@[c.position()] == l.groups@[c.position()].root_key);
                assert(keys@[d.position()] == l.groups@[d.position()].root_key);
                assert(bases@[c.position()]@ == canonical.at(c)@);
                assert(bases@[d.position()]@ == canonical.at(d)@);
            }
            let n = l.scan_roots@;
            assert(StorageClass::Critical.position() == 0 && StorageClass::Default.position() == 1
                && StorageClass::Telemetry.position() == 2);
            assert((kc == 0) == (canonical.critical@ == main@));
            assert((ko == 0) == (canonical.ordinary@ == main@));
            assert((kt == 0) == (canonical.telemetry@ == main@));
            assert((ko == kc) == (canonical.ordinary@ == canonical.critical@));
            assert((kt == kc) == (canonical.telemetry@ == canonical.critical@));
            assert((kt == ko) == (canonical.telemetry@ == canonical.ordinary@));
            assert(Seq::new(n.len(), |k: int| n[k]@) =~= self.roots_to_scan(main@, *canonical));
            if kc != 0 {
                assert(first[1]@ == l.roots.at(StorageClass::Critical)@);
                assert(n[1] == first[1]);
            }
            if ko != 0 && ko != kc {
                assert(second[second.len() - 1]@ == l.roots.at(StorageClass::Default)@);
                assert(n[second.len() - 1] == second[second.len() - 1]);
            }
            if kt != 0 && kt != kc && kt != ko {
                assert(n[n.len() - 1]@ == l.roots.at(StorageClass::Telemetry)@);
            }
            assert forall|c: StorageClass|
                l.groups@[(#[trigger] c.position())].root_key != 0 implies exists|
                    d: StorageClass,
                    k: int,
                |
                    {
                        &&& canonical.at(d)@ == canonical.at(c)@
                        &&& 0 <= k < n.len()
                        &&& (#[trigger] n[k])@ == (#[trigger] l.roots.at(d))@
                    } by {
                let key = l.groups@[c.position()].root_key;
                if key == kc {
                    assert(StorageClass::Critical.position() == 0);
                    assert(canonical.at(StorageClass::Critical)@ == canonical.at(c)@);
                    assert(n[1]@ == l.roots.at(StorageClass::Critical)@);
                } else if key == ko {
                    assert(StorageClass::Default.position() == 1);
                    assert(canonical.at(StorageClass::Default)@ == canonical.at(c)@);
                    assert(n[second.len() - 1]@ == l.roots.at(StorageClass::Default)@);
                } else {
                    assert(c == StorageClass::Telemetry);
                    assert(n[n.len() - 1]@ == l.roots.at(StorageClass::Telemetry)@);
                }
            }
        }
        l
    }
}

// ---------------------------------------------------------------------------
// The names on the medium
// ---------------------------------------------------------------------------

/// Names the store could have given to a directory. Foreign things lie next to
/// namespaces where a root is a mount point, and a walk does not enter them.
pub open spec fn is_ours() -> spec_fn(String) -> bool {
    |n: String| channel::component_fault(n@) is None
}

/// The names the store could have given to a directory, in their order.
pub fn our_names(names: Vec<String>) -> (ours: Vec<String>)
    ensures
        ours@ == names@.filter(is_ours()),
{
    let ghost all = names@;
    let mut rest: Vec<String> = names;
    let mut ours: Vec<String> = Vec::new();
    proof {
        reveal(Seq::filter);
        assert(all.take(0) =~= Seq::<String>::empty());
        assert(all.skip(0) =~= all);
    }
    while rest.len() > 0
        invariant
            rest@.len() <= all.len(),
            rest@ == all.skip(all.len() - rest@.len()),
            ours@ == all.take(all.len() - rest@.len()).filter(is_ours()),
        decreases rest@.len(),
    {
        let ghost k = all.len() - rest@.len();
        let name: String = rest.remove(0);
        proof {
            reveal(Seq::filter);
            assert(name == all[k]);
            assert(all.take(k + 1).drop_last() =~= all.take(k));
            assert(all.take(k + 1).last() == name);
            assert(all.skip(k).remove(0) =~= all.skip(k + 1));
        }
        if validate_component(name.as_str()).is_ok() {
            ours.push(name);
        }
    }
    assert(all.take(all.len() as int) =~= all);
    ours
}

/// Numbers in ascending order, each once.
pub open spec fn strictly_ascending(numbers: Seq<u32>) -> bool {
    forall|i: int, j: int|
        0 <= i < j < numbers.len() ==> (#[trigger] numbers[i]) < (#[trigger] numbers[j])
}

/// Notes a run that segments stand behind. The last of the list is the floor of the
/// next run's number.
pub fn note_boot(boots: &mut Vec<u32>, boot: u32)
    requires
        strictly_ascending(old(boots)@),
    ensures
        strictly_ascending(final(boots)@),
        forall|n: u32|
            #[trigger] final(boots)@.contains(n) == (n == boot || old(boots)@.contains(n)),
{
    let ghost before = boots@;
    let n: usize = boots.len();
    let mut i: usize = 0;
    while i < n && boots[i] < boot
        invariant
            i <= n == boots@.len(),
            boots@ == before,
            forall|k: int| 0 <= k < i ==> (#[trigger] before[k]) < boot,
        decreases n - i,
    {
        i = i + 1;
    }
    if i < n && boots[i] == boot {
        assert(before[i as int] == boot);
        return ;
    }
    boots.insert(i, boot);
    proof {
        let after = boots@;
        assert(after == before.insert(i as int, boot));
        assert forall|a: int, b: int| 0 <= a < b < after.len() implies (#[trigger] after[a]) < (
        #[trigger] after[b]) by {
            let x = if a < i {
                a
            } else {
                a - 1
            };
            let y = if b < i {
                b
            } else {
                b - 1
            };
            if a != i {
                assert(after[a] == before[x]);
            }
            if b != i {
                assert(after[b] == before[y]);
            }
            if a == i {
                assert(before[i as int] > boot);
                assert(y == i || before[i as int] < before[y]);
            }
        }
        assert forall|m: u32| #[trigger] after.contains(m) == (m == boot || before.contains(m)) by {
            if before.contains(m) {
                let k = before.index_of(m);
                if k < i {
                    assert(after[k] == m);
                } else {
                    assert(after[k + 1] == m);
                }
            }
            if m == boot {
                assert(after[i as int] == m);
            }
            if after.contains(m) && m != boot {
                let k = after.index_of(m);
                if k < i {
                    assert(before[k] == m);
                } else {
                    assert(before[k - 1] == m);
                }
            }
        }
    }
}

// ---------------------------------------------------------------------------
// Bringing up namespaces
// ---------------------------------------------------------------------------

/// What a store is, apart from its files and its writer.
#[derive(Debug)]
pub struct StoreCore {
    pub config: StoreConfig,
    pub meta: StoreMeta,
    pub roots: PerClass<String>,
    pub boot: BootCounter,
    pub names: OpenNames,
    pub next_span: u32,
}

impl StoreCore {
    pub open spec fn wf(&self) -> bool {
        self.names.wf()
    }

    /// Everything but the names stays.
    pub open spec fn same_store(&self, other: &StoreCore) -> bool {
        &&& self.config == other.config
        &&& self.meta == other.meta
        &&& self.roots == other.roots
        &&& self.boot == other.boot
        &&& self.next_span == other.next_span
    }

    pub fn new(
        config: StoreConfig,
        meta: StoreMeta,
        roots: PerClass<String>,
        boot: BootCounter,
    ) -> (s: StoreCore)
        ensures
            s.wf(),
            s.config == config,
            s.meta == meta,
            s.roots == roots,
            s.boot == boot,
            s.next_span == 1,
            s.names.entries().len() == 0,
    {
        StoreCore { config, meta, roots, boot, names: OpenNames::new(), next_span: 1 }
    }

    /// Begins to bring up a namespace: checks its name and its schema and takes the
    /// name. From here on a failure has to free it.
    pub fn begin_namespace(&mut self, name: &str, schema: &Schema) -> (r: Result<(), OpeningFault>)
        requires
            old(self).wf(),
        ensures
            final(self).wf(),
            final(self).same_store(old(self)),
            match store::opening_fault(name@, *schema, old(self).names.has(name@)) {
                Some(f) => r == Err::<(), OpeningFault>(f) && final(self).names.entries()
                    == old(self).names.entries(),
                None => r is Ok && final(self).names.has(name@) && !old(self).names.has(name@)
                    && final(self).names.entries().drop_last() == old(self).names.entries(),
            },
    {
        let taken: bool = self.names.is_taken(name);
        match check_opening(name, schema, taken) {
            Err(f) => Err(f),
            Ok(()) => {
                let _ = self.names.reserve(name);
                Ok(())
            },
        }
    }

    /// Opens the metadata of a namespace whose name is taken; a failure frees the
    /// name.
    pub fn open_meta(
        &mut self,
        name: &str,
        schema: &Schema,
        bytes: Option<&Vec<u8>>,
        path: &str,
    ) -> (r: Result<NsOpening, Error>)
        requires
            old(self).wf(),
        ensures
            final(self).wf(),
            final(self).same_store(old(self)),
            r is Err ==> !final(self).names.has(name@) && forall|other: Seq<char>|
                other != name@ ==> #[trigger] final(self).names.has(other) == old(self).names.has(
                    other,
                ),
            r is Ok ==> final(self).names.entries() == old(self).names.entries(),
            NsMeta::opened(bytes, path@, name@, *schema, r),
    {
        match NsMeta::open(bytes, path, name, schema) {
            Ok(o) => Ok(o),
            Err(e) => {
                self.names.free(name);
                Err(e)
            },
        }
    }

    /// Plans the channels of a namespace whose name is taken; a failure frees the
    /// name.
    pub fn plan_namespace(&mut self, name: &str, schema: &Schema, quota: &NsQuota) -> (r: Result<
        NsSetup,
        Error,
    >)
        requires
            old(self).wf(),
        ensures
            final(self).wf(),
            final(self).same_store(old(self)),
            r is Err ==> !final(self).names.has(name@) && forall|other: Seq<char>|
                other != name@ ==> #[trigger] final(self).names.has(other) == old(self).names.has(
                    other,
                ),
            r is Err == exists|i: int|
                0 <= i < schema.used_classes().len() && old(self).config.bad_quota(
                    name@,
                    *quota,
                    #[trigger] schema.used_classes()[i],
                ),
            r matches Err(e) ==> old(self).config.names_bad_quota(name@, *quota, *schema, e),
            r matches Ok(setup) ==> {
                &&& final(self).names.entries() == old(self).names.entries()
                &&& setup.name@ == name@
                &&& setup.protocol_version == schema.version
                &&& setup.store_id == old(self).meta.store_id
                &&& setup.boot == old(self).boot
                &&& setup.channels@.len() == schema.used_classes().len()
                &&& setup.channels@.len() <= 3
                &&& forall|i: int|
                    0 <= i < setup.channels@.len() ==> old(self).config.is_spec(
                        #[trigger] setup.channels@[i],
                        name@,
                        *quota,
                        old(self).roots,
                        schema.used_classes()[i],
                    )
            },
    {
        proof {
            schema::all_classes().lemma_filter_len(|c: StorageClass| schema.uses(c));
        }
        match self.config.plan_channels(name, schema, quota, &self.roots) {
            Ok(channels) => {
                proof {
                    assert forall|i: int|
                        0 <= i < schema.used_classes().len() implies !self.config.bad_quota(
                        name@,
                        *quota,
                        #[trigger] schema.used_classes()[i],
                    ) by {
                        assert(self.config.is_spec(
                            channels@[i],
                            name@,
                            *quota,
                            self.roots,
                            schema.used_classes()[i],
                        ));
                    }
                }
                Ok(
                    NsSetup {
                        name: name.to_owned(),
                        protocol_version: schema.version,
                        store_id: self.meta.store_id,
                        boot: self.boot,
                        channels,
                    },
                )
            },
            Err(e) => {
                self.names.free(name);
                Err(e)
            },
        }
    }

    /// The namespace is up.
    pub fn confirm(&mut self, name: &str, id: NsId)
        requires
            old(self).wf(),
        ensures
            final(self).wf(),
            final(self).same_store(old(self)),
            final(self).names.entries().len() == old(self).names.entries().len(),
            forall|i: int|
                0 <= i < old(self).names.entries().len() ==> {
                    let was = old(self).names.entries()[i];
                    let is = #[trigger] final(self).names.entries()[i];
                    &&& is.0@ == was.0@
                    &&& is.1 == if was.0@ == name@ {
                        Some(id)
                    } else {
                        was.1
                    }
                },
    {
        self.names.confirm(name, id);
    }

    /// The namespace is gone, or did not come up: its name is free again.
    pub fn abandon(&mut self, name: &str)
        requires
            old(self).wf(),
        ensures
            final(self).wf(),
            final(self).same_store(old(self)),
            !final(self).names.has(name@),
            forall|other: Seq<char>|
                other != name@ ==> #[trigger] final(self).names.has(other) == old(self).names.has(
                    other,
                ),
    {
        self.names.free(name);
    }

    /// Allocates a span number, shared by the process.
    pub fn next_span(&mut self) -> (id: SpanId)
        ensures
            numbered(old(self).next_span, final(self).next_span, id),
            *final(self) == (StoreCore { next_span: final(self).next_span, ..*old(self) }),
    {
        next_span_id(&mut self.next_span)
    }
}

/// Records a synchronization at a reading of the boot clock. A moment that makes no
/// sense is refused whatever its source: an anchor is retroactive, and one call with
/// garbage would distort every event of the boot. The answer says whether the
/// epochs have to be written.
pub fn record_sync(epochs: &mut EpochStore, utc: Utc, source: SyncSource, now_boottime_us: u64) -> (accepted:
    bool)
    ensures
        ({
            let sensible = store::FIRST_PLAUSIBLE_MS <= utc.millis() < store::PAST_PLAUSIBLE_MS;
            &&& accepted == (sensible && exists|i: int|
                #[trigger] epochs::first_boot(
                    old(epochs).epochs.hw_boots@,
                    old(epochs).current.hw_boot_id,
                    i,
                ) && epochs::may_anchor(old(epochs).epochs.hw_boots@[i], source))
        }),
        final(epochs).current == old(epochs).current,
        final(epochs).epochs.runs@ == old(epochs).epochs.runs@,
        !accepted ==> final(epochs).epochs.hw_boots@ == old(epochs).epochs.hw_boots@,
        forall|i: int|
            accepted && #[trigger] epochs::first_boot(
                old(epochs).epochs.hw_boots@,
                old(epochs).current.hw_boot_id,
                i,
            ) ==> final(epochs).epochs.hw_boots@ == old(epochs).epochs.hw_boots@.update(
                i,
                HwBoot {
                    utc_anchor_ms: Some(epochs::anchor_of(utc, now_boottime_us)),
                    anchor_source: Some(source),
                    anchor_captured_us: Some(now_boottime_us),
                    ..old(epochs).epochs.hw_boots@[i]
                },
            ),
{
    if !is_plausible_utc(utc) {
        return false;
    }
    epochs.record_sync(utc, source, now_boottime_us)
}

/// A class lies where it was told to, and otherwise in the store's own root.
pub proof fn law_a_class_lies_on_its_own_medium(config: StoreConfig, class: StorageClass)
    ensures
        config.resolved(None, class).custom_root matches Some(r) ==> config.root_text(class) == r@,
        config.resolved(None, class).custom_root is None ==> config.root_text(class)
            == config.root@,
{
}

/// A walk enters a directory if and only if its name is one the store could have given.
pub proof fn law_a_walk_enters_only_what_is_ours(names: Seq<String>, name: String)
    ensures
        names.filter(is_ours()).contains(name) <==> names.contains(name)
            && channel::component_fault(name@) is None,
{
    let p = is_ours();
    if names.contains(name) && channel::component_fault(name@) is None {
        names.lemma_filter_contains(p, names.index_of(name));
    }
    if names.filter(p).contains(name) {
        names.lemma_filter_contains_rev(p, name);
        names.lemma_filter_pred(p, names.filter(p).index_of(name));
    }
}

/// The runs still in use are looked for on every medium of the store: in its own root, and in the root
/// of each class that lies elsewhere.
pub proof fn law_every_medium_is_walked(
    config: StoreConfig,
    main: Seq<char>,
    canonical: PerClass<String>,
    class: StorageClass,
)
    ensures
        config.roots_to_scan(main, canonical).contains(config.root@),
        canonical.at(class)@ != main ==> exists|other: StorageClass|
            canonical.at(other)@ == canonical.at(class)@ && config.roots_to_scan(
                main,
                canonical,
            ).contains(#[trigger] config.root_text(other)),
        config.roots_to_scan(main, canonical).len() <= 4,
{
    let own = seq![config.root@];
    let a = config.root_to_scan(main, canonical, StorageClass::Critical);
    let b = config.root_to_scan(main, canonical, StorageClass::Default);
    let c = config.root_to_scan(main, canonical, StorageClass::Telemetry);
    let all = config.roots_to_scan(main, canonical);
    assert(all == own + a + b + c);
    assert(all[0] == config.root@);
    if a.len() > 0 {
        assert(all[1] == config.root_text(StorageClass::Critical));
    }
    if b.len() > 0 {
        assert(all[1 + a.len() as int] == config.root_text(StorageClass::Default));
    }
    if c.len() > 0 {
        assert(all[1 + a.len() as int + b.len() as int] == config.root_text(StorageClass::Telemetry));
    }
    if canonical.at(class)@ != main {
        let other = if StoreConfig::brings_medium(main, canonical, class) {
            class
        } else if canonical.at(class)@ == canonical.critical@ {
            StorageClass::Critical
        } else {
            StorageClass::Default
        };
        assert(all.contains(config.root_text(other)));
    }
}

} // verus!
