//! The hub-bridge rate index.
//!
//! Every valid bridge quote with positive prices contributes one entry,
//! holding the two fixed-point prices of the quote. The forward view of
//! an entry is the rate hub-per-bridge, the inverse view is its exact
//! reciprocal; both views are generated from the same entry in the same
//! pass, so the two maps can never diverge. On duplicate keys the last
//! quote of the batch wins.

use crate::models::api_models::ExchangeRecord;
use crate::models::logic_models::TradingCurrencyType;
use crate::rational::{rat_div, rat_eq, rat_mul, rat_one, rat_recip, Rat, Ratio};
use vstd::prelude::*;

verus! {

/// One hub/bridge observation: the hub tag, the bridge item's stable id,
/// and the two positive fixed-point prices of the quote it came from.
#[derive(Clone, Copy, Debug, PartialEq, Eq, Structural)]
pub struct IndexEntry {
    pub hub: TradingCurrencyType,
    pub bridge_id: u64,
    pub hub_price: u32,
    pub bridge_price: u32,
}

impl IndexEntry {
    pub open spec fn key(self) -> (TradingCurrencyType, u64) {
        (self.hub, self.bridge_id)
    }

    /// Hub units per bridge unit.
    pub open spec fn forward(self) -> Rat {
        Rat { num: self.hub_price as int, den: self.bridge_price as int }
    }

    /// Bridge units per hub unit: the exact reciprocal of `forward`.
    pub open spec fn inverse(self) -> Rat {
        Rat { num: self.bridge_price as int, den: self.hub_price as int }
    }

    pub open spec fn wf(self) -> bool {
        self.hub.is_hub() && self.hub_price > 0 && self.bridge_price > 0
    }
}

pub open spec fn unique_keys(s: Seq<IndexEntry>) -> bool {
    forall|i: int, j: int|
        0 <= i < j < s.len() ==> (#[trigger] s[i].key()) != (#[trigger] s[j].key())
}

pub open spec fn entries_wf(s: Seq<IndexEntry>) -> bool {
    forall|i: int| 0 <= i < s.len() ==> (#[trigger] s[i]).wf()
}

/// The forward map an entry sequence denotes: (hub, bridge) to the rate
/// hub-per-bridge; later entries override earlier ones.
pub open spec fn fwd_map_of(s: Seq<IndexEntry>) -> Map<(TradingCurrencyType, u64), Rat>
    decreases s.len(),
{
    if s.len() == 0 {
        Map::empty()
    } else {
        fwd_map_of(s.drop_last()).insert(s.last().key(), s.last().forward())
    }
}

/// The inverse map of the same entries: (bridge, hub) to the reciprocal
/// rate bridge-per-hub.
pub open spec fn inv_map_of(s: Seq<IndexEntry>) -> Map<(u64, TradingCurrencyType), Rat>
    decreases s.len(),
{
    if s.len() == 0 {
        Map::empty()
    } else {
        inv_map_of(s.drop_last()).insert(
            (s.last().bridge_id, s.last().hub),
            s.last().inverse(),
        )
    }
}

/// A key is in the forward map exactly when some entry carries it.
pub proof fn lemma_fwd_map_key(s: Seq<IndexEntry>, hub: TradingCurrencyType, bridge_id: u64)
    ensures
        fwd_map_of(s).contains_key((hub, bridge_id)) <==> exists|i: int|
            0 <= i < s.len() && (#[trigger] s[i].key()) == (hub, bridge_id),
    decreases s.len(),
{
    if s.len() > 0 {
        lemma_fwd_map_key(s.drop_last(), hub, bridge_id);
        if s.last().key() == (hub, bridge_id) {
            assert(s[s.len() - 1].key() == (hub, bridge_id));
        } else if exists|i: int|
            0 <= i < s.len() && (#[trigger] s[i].key()) == (hub, bridge_id) {
            let i = choose|i: int|
                0 <= i < s.len() && (#[trigger] s[i].key()) == (hub, bridge_id);
            assert(s.drop_last()[i].key() == (hub, bridge_id));
        }
    }
}

/// A key is in the inverse map exactly when some entry carries it.
pub proof fn lemma_inv_map_key(s: Seq<IndexEntry>, bridge_id: u64, hub: TradingCurrencyType)
    ensures
        inv_map_of(s).contains_key((bridge_id, hub)) <==> exists|i: int|
            0 <= i < s.len() && (#[trigger] s[i].key()) == (hub, bridge_id),
    decreases s.len(),
{
    if s.len() > 0 {
        lemma_inv_map_key(s.drop_last(), bridge_id, hub);
        if s.last().key() == (hub, bridge_id) {
            assert(s[s.len() - 1].key() == (hub, bridge_id));
        } else if exists|i: int|
            0 <= i < s.len() && (#[trigger] s[i].key()) == (hub, bridge_id) {
            let i = choose|i: int|
                0 <= i < s.len() && (#[trigger] s[i].key()) == (hub, bridge_id);
            assert(s.drop_last()[i].key() == (hub, bridge_id));
        }
    }
}

/// The entry whose key has no later occurrence gives the maps' values at
/// that key.
pub proof fn lemma_maps_at_last_occurrence(s: Seq<IndexEntry>, i: int)
    requires
        0 <= i < s.len(),
        forall|j: int| i < j < s.len() ==> (#[trigger] s[j].key()) != s[i].key(),
    ensures
        fwd_map_of(s).contains_key(s[i].key()),
        fwd_map_of(s)[s[i].key()] == s[i].forward(),
        inv_map_of(s).contains_key((s[i].bridge_id, s[i].hub)),
        inv_map_of(s)[(s[i].bridge_id, s[i].hub)] == s[i].inverse(),
    decreases s.len(),
{
    if i == s.len() - 1 {
    } else {
        lemma_maps_at_last_occurrence(s.drop_last(), i);
        assert(s.last().key() != s[i].key());
        assert((s.last().bridge_id, s.last().hub) != (s[i].bridge_id, s[i].hub));
    }
}

/// The two maps mirror each other: `(hub, bridge)` is in the forward map
/// exactly when `(bridge, hub)` is in the inverse map, and the inverse
/// value is the exact reciprocal of the forward value.
pub proof fn lemma_maps_mirror(s: Seq<IndexEntry>, hub: TradingCurrencyType, bridge_id: u64)
    ensures
        fwd_map_of(s).contains_key((hub, bridge_id)) <==> inv_map_of(s).contains_key(
            (bridge_id, hub),
        ),
        fwd_map_of(s).contains_key((hub, bridge_id)) ==> inv_map_of(s)[(bridge_id, hub)]
            == rat_recip(fwd_map_of(s)[(hub, bridge_id)]),
    decreases s.len(),
{
    if s.len() > 0 {
        lemma_maps_mirror(s.drop_last(), hub, bridge_id);
    }
}

/// The hub-bridge index of one refresh pass: a forward rate map and its
/// structural inverse, both denoted by one private entry list so that
/// they can never diverge.
pub struct HubBridgeIndex {
    entries: Vec<IndexEntry>,
}

impl HubBridgeIndex {
    pub closed spec fn entries_seq(&self) -> Seq<IndexEntry> {
        self.entries@
    }

    pub open spec fn wf(&self) -> bool {
        unique_keys(self.entries_seq()) && entries_wf(self.entries_seq())
    }

    pub open spec fn forward_map(&self) -> Map<(TradingCurrencyType, u64), Rat> {
        fwd_map_of(self.entries_seq())
    }

    pub open spec fn inverse_map(&self) -> Map<(u64, TradingCurrencyType), Rat> {
        inv_map_of(self.entries_seq())
    }

    /// Number of distinct hub-bridge pairs held.
    pub fn len(&self) -> (n: usize)
        ensures
            n == self.entries_seq().len(),
    {
        self.entries.len()
    }

    /// The entry at one position, for iteration.
    pub fn entry(&self, i: usize) -> (e: IndexEntry)
        requires
            i < self.entries_seq().len(),
        ensures
            e == self.entries_seq()[i as int],
    {
        self.entries[i]
    }

    /// True iff the index holds no entry at all; the caller can then tell
    /// an empty market apart from one that merely yields no profitable
    /// route.
    pub fn is_empty(&self) -> (r: bool)
        ensures
            r <==> self.entries_seq().len() == 0,
            r <==> self.forward_map() =~= Map::<(TradingCurrencyType, u64), Rat>::empty(),
    {
        proof {
            if self.entries_seq().len() > 0 {
                let s = self.entries_seq();
                lemma_fwd_map_key(s, s.last().hub, s.last().bridge_id);
                assert(s[s.len() - 1].key() == (s.last().hub, s.last().bridge_id));
                assert(fwd_map_of(s).contains_key((s.last().hub, s.last().bridge_id)));
            }
        }
        self.entries.is_empty()
    }

    /// The forward rate (hub units per bridge unit) recorded for a hub
    /// and a bridge item, if any. The returned ratio is positive.
    pub fn forward_rate(&self, hub: TradingCurrencyType, bridge_id: u64) -> (r: Option<Ratio>)
        requires
            self.wf(),
        ensures
            match r {
                Some(rt) => self.forward_map().contains_key((hub, bridge_id)) && rt@
                    == self.forward_map()[(hub, bridge_id)] && rt.num > 0 && rt.den > 0,
                None => !self.forward_map().contains_key((hub, bridge_id)),
            },
    {
        let n = self.entries.len();
        let mut i: usize = 0;
        while i < n
            invariant
                self.wf(),
                n == self.entries_seq().len(),
                i <= n,
                forall|j: int| 0 <= j < i ==> (#[trigger] self.entries_seq()[j].key()) != (
                hub,
                bridge_id,
                ),
            decreases n - i,
        {
            let e = self.entries[i];
            if e.hub == hub && e.bridge_id == bridge_id {
                proof {
                    lemma_maps_at_last_occurrence(self.entries_seq(), i as int);
                }
                return Some(Ratio { num: e.hub_price, den: e.bridge_price });
            }
            i += 1;
        }
        proof {
            lemma_fwd_map_key(self.entries_seq(), hub, bridge_id);
        }
        None
    }

    /// The inverse rate (bridge units per hub unit) recorded for a bridge
    /// item and a hub, if any. The returned ratio is positive.
    pub fn inverse_rate(&self, bridge_id: u64, hub: TradingCurrencyType) -> (r: Option<Ratio>)
        requires
            self.wf(),
        ensures
            match r {
                Some(rt) => self.inverse_map().contains_key((bridge_id, hub)) && rt@
                    == self.inverse_map()[(bridge_id, hub)] && rt.num > 0 && rt.den > 0,
                None => !self.inverse_map().contains_key((bridge_id, hub)),
            },
    {
        let n = self.entries.len();
        let mut i: usize = 0;
        while i < n
            invariant
                self.wf(),
                n == self.entries_seq().len(),
                i <= n,
                forall|j: int| 0 <= j < i ==> (#[trigger] self.entries_seq()[j].key()) != (
                hub,
                bridge_id,
                ),
            decreases n - i,
        {
            let e = self.entries[i];
            if e.hub == hub && e.bridge_id == bridge_id {
                proof {
                    lemma_maps_at_last_occurrence(self.entries_seq(), i as int);
                }
                return Some(Ratio { num: e.bridge_price, den: e.hub_price });
            }
            i += 1;
        }
        proof {
            lemma_inv_map_key(self.entries_seq(), bridge_id, hub);
        }
        None
    }
}

/// A quote contributes an index entry iff it is a valid bridge quote and
/// both of its prices are positive; a zero price would make the rate or
/// its reciprocal meaningless, so such quotes are rejected here, before
/// any ranking can see them.
pub open spec fn spec_indexable(r: ExchangeRecord) -> bool {
    r.spec_is_valid_bridge() && r.spec_hub_price() > 0 && r.spec_bridge_price() > 0
}

/// The forward map a batch of quotes denotes: one entry per indexable
/// quote, later quotes winning on duplicate keys.
pub open spec fn records_fwd_map(rs: Seq<ExchangeRecord>) -> Map<(TradingCurrencyType, u64), Rat>
    decreases rs.len(),
{
    if rs.len() == 0 {
        Map::empty()
    } else {
        let m = records_fwd_map(rs.drop_last());
        if spec_indexable(rs.last()) {
            m.insert(
                (rs.last().spec_hub(), rs.last().spec_bridge_id()),
                Rat {
                    num: rs.last().spec_hub_price() as int,
                    den: rs.last().spec_bridge_price() as int,
                },
            )
        } else {
            m
        }
    }
}

/// The inverse map a batch of quotes denotes.
pub open spec fn records_inv_map(rs: Seq<ExchangeRecord>) -> Map<(u64, TradingCurrencyType), Rat>
    decreases rs.len(),
{
    if rs.len() == 0 {
        Map::empty()
    } else {
        let m = records_inv_map(rs.drop_last());
        if spec_indexable(rs.last()) {
            m.insert(
                (rs.last().spec_bridge_id(), rs.last().spec_hub()),
                Rat {
                    num: rs.last().spec_bridge_price() as int,
                    den: rs.last().spec_hub_price() as int,
                },
            )
        } else {
            m
        }
    }
}

/// Every key of the forward map of a batch is witnessed by an indexable
/// quote of the batch with that hub and that bridge item.
pub proof fn lemma_records_fwd_key(
    rs: Seq<ExchangeRecord>,
    hub: TradingCurrencyType,
    bridge_id: u64,
)
    ensures
        records_fwd_map(rs).contains_key((hub, bridge_id)) <==> exists|i: int|
            0 <= i < rs.len() && spec_indexable(#[trigger] rs[i]) && rs[i].spec_hub() == hub
                && rs[i].spec_bridge_id() == bridge_id,
    decreases rs.len(),
{
    if rs.len() > 0 {
        lemma_records_fwd_key(rs.drop_last(), hub, bridge_id);
        if spec_indexable(rs.last()) && rs.last().spec_hub() == hub
            && rs.last().spec_bridge_id() == bridge_id {
            assert(spec_indexable(rs[rs.len() - 1]));
        } else if exists|i: int|
            0 <= i < rs.len() && spec_indexable(#[trigger] rs[i]) && rs[i].spec_hub() == hub
                && rs[i].spec_bridge_id() == bridge_id {
            let i = choose|i: int|
                0 <= i < rs.len() && spec_indexable(#[trigger] rs[i]) && rs[i].spec_hub() == hub
                    && rs[i].spec_bridge_id() == bridge_id;
            if i < rs.len() - 1 {
                assert(spec_indexable(rs.drop_last()[i]));
            }
        }
    }
}

/// Prepending one quote to a batch: the maps change only if the quote is
/// indexable and no later quote already claims its key.
proof fn lemma_records_maps_prepend(r: ExchangeRecord, rs: Seq<ExchangeRecord>)
    ensures
        records_fwd_map(seq![r] + rs) =~= {
            let m = records_fwd_map(rs);
            if spec_indexable(r) && !m.contains_key((r.spec_hub(), r.spec_bridge_id())) {
                m.insert(
                    (r.spec_hub(), r.spec_bridge_id()),
                    Rat { num: r.spec_hub_price() as int, den: r.spec_bridge_price() as int },
                )
            } else {
                m
            }
        },
        records_inv_map(seq![r] + rs) =~= {
            let m = records_inv_map(rs);
            if spec_indexable(r) && !records_fwd_map(rs).contains_key(
                (r.spec_hub(), r.spec_bridge_id()),
            ) {
                m.insert(
                    (r.spec_bridge_id(), r.spec_hub()),
                    Rat { num: r.spec_bridge_price() as int, den: r.spec_hub_price() as int },
                )
            } else {
                m
            }
        },
    decreases rs.len(),
{
    let k = (r.spec_hub(), r.spec_bridge_id());
    let ki = (r.spec_bridge_id(), r.spec_hub());
    let vf = Rat { num: r.spec_hub_price() as int, den: r.spec_bridge_price() as int };
    let vi = Rat { num: r.spec_bridge_price() as int, den: r.spec_hub_price() as int };
    if rs.len() == 0 {
        assert(seq![r] + rs =~= seq![r]);
        assert((seq![r] + rs).drop_last() =~= Seq::<ExchangeRecord>::empty());
        assert((seq![r] + rs).last() == r);
        assert(rs =~= Seq::<ExchangeRecord>::empty());
        assert(records_fwd_map(Seq::<ExchangeRecord>::empty()) =~= Map::<
            (TradingCurrencyType, u64),
            Rat,
        >::empty());
        assert(records_inv_map(Seq::<ExchangeRecord>::empty()) =~= Map::<
            (u64, TradingCurrencyType),
            Rat,
        >::empty());
        if spec_indexable(r) {
            assert(records_fwd_map(seq![r] + rs) =~= records_fwd_map(rs).insert(k, vf));
            assert(records_inv_map(seq![r] + rs) =~= records_inv_map(rs).insert(ki, vi));
        } else {
            assert(records_fwd_map(seq![r] + rs) =~= records_fwd_map(rs));
            assert(records_inv_map(seq![r] + rs) =~= records_inv_map(rs));
        }
    } else {
        let t = rs.drop_last();
        let l = rs.last();
        lemma_records_maps_prepend(r, t);
        assert((seq![r] + rs).drop_last() =~= seq![r] + t);
        assert((seq![r] + rs).last() == l);
        if spec_indexable(r) && !records_fwd_map(t).contains_key(k) {
            if spec_indexable(l) && (l.spec_hub(), l.spec_bridge_id()) == k {
                assert(records_fwd_map(rs).contains_key(k));
                assert(records_fwd_map(seq![r] + rs) =~= records_fwd_map(rs));
                assert(records_inv_map(seq![r] + rs) =~= records_inv_map(rs));
            } else {
                assert(!records_fwd_map(rs).contains_key(k));
                assert(records_fwd_map(seq![r] + rs) =~= records_fwd_map(rs).insert(k, vf));
                assert(records_inv_map(seq![r] + rs) =~= records_inv_map(rs).insert(ki, vi));
            }
        } else {
            if spec_indexable(r) {
                assert(records_fwd_map(rs).contains_key(k));
            }
            assert(records_fwd_map(seq![r] + rs) =~= records_fwd_map(rs));
            assert(records_inv_map(seq![r] + rs) =~= records_inv_map(rs));
        }
    }
}

/// The two record-level maps mirror each other as well.
pub proof fn lemma_maps_mirror_records(
    rs: Seq<ExchangeRecord>,
    hub: TradingCurrencyType,
    bridge_id: u64,
)
    ensures
        records_fwd_map(rs).contains_key((hub, bridge_id)) <==> records_inv_map(rs).contains_key(
            (bridge_id, hub),
        ),
        records_fwd_map(rs).contains_key((hub, bridge_id)) ==> records_inv_map(rs)[(
            bridge_id,
            hub,
        )] == rat_recip(records_fwd_map(rs)[(hub, bridge_id)]),
    decreases rs.len(),
{
    if rs.len() > 0 {
        lemma_maps_mirror_records(rs.drop_last(), hub, bridge_id);
    }
}

/// Builds the forward and inverse hub-bridge rate maps of one batch in a
/// single pass. Only valid bridge quotes with positive prices contribute;
/// on duplicate (hub, bridge) keys the last quote of the batch wins.
pub fn build_hub_bridge_maps(records: &[ExchangeRecord]) -> (idx: HubBridgeIndex)
    ensures
        idx.wf(),
        idx.forward_map() == records_fwd_map(records@),
        idx.inverse_map() == records_inv_map(records@),
{
    let mut entries: Vec<IndexEntry> = Vec::new();
    let n = records.len();
    let mut i: usize = n;
    proof {
        assert(records@.skip(n as int) =~= Seq::<ExchangeRecord>::empty());
    }
    while i > 0
        invariant
            i <= n,
            n == records@.len(),
            unique_keys(entries@),
            entries_wf(entries@),
            fwd_map_of(entries@) == records_fwd_map(records@.skip(i as int)),
            inv_map_of(entries@) == records_inv_map(records@.skip(i as int)),
        decreases i,
    {
        i -= 1;
        let r = &records[i];
        proof {
            assert(records@.skip(i as int) =~= seq![records@[i as int]] + records@.skip(
                i as int + 1,
            ));
            lemma_records_maps_prepend(records@[i as int], records@.skip(i as int + 1));
        }
        if let Some((hub, hub_price, bridge_id, bridge_price)) = r.hub_bridge_price() {
            if hub_price > 0 && bridge_price > 0 {
                let mut found = false;
                let mut j: usize = 0;
                let m = entries.len();
                while j < m
                    invariant
                        m == entries@.len(),
                        j <= m,
                        found <==> exists|k: int|
                            0 <= k < j && (#[trigger] entries@[k].key()) == (hub, bridge_id),
                    decreases m - j,
                {
                    let e = entries[j];
                    if e.hub == hub && e.bridge_id == bridge_id {
                        found = true;
                        proof {
                            assert(entries@[j as int].key() == (hub, bridge_id));
                        }
                    }
                    j += 1;
                }
                proof {
                    lemma_fwd_map_key(entries@, hub, bridge_id);
                }
                if !found {
                    let ghost pre = entries@;
                    let entry = IndexEntry { hub, bridge_id, hub_price, bridge_price };
                    entries.push(entry);
                    proof {
                        assert(entries@.drop_last() =~= pre);
                        assert(entries@.last() == entry);
                    }
                }
            }
        }
    }
    proof {
        assert(records@.skip(0) =~= records@);
    }
    HubBridgeIndex { entries }
}

/// For every `(hub, bridge)` entry in a well-formed index's forward map,
/// the `(bridge, hub)` entry exists in the inverse map and the two rates
/// multiply to exactly one, and vice versa.
pub proof fn lemma_forward_inverse_product_is_one(
    idx: &HubBridgeIndex,
    hub: TradingCurrencyType,
    bridge_id: u64,
)
    requires
        idx.wf(),
    ensures
        idx.forward_map().contains_key((hub, bridge_id)) <==> idx.inverse_map().contains_key(
            (bridge_id, hub),
        ),
        idx.forward_map().contains_key((hub, bridge_id)) ==> rat_eq(
            rat_mul(idx.forward_map()[(hub, bridge_id)], idx.inverse_map()[(bridge_id, hub)]),
            rat_one(),
        ),
{
    let s = idx.entries_seq();
    lemma_maps_mirror(s, hub, bridge_id);
    if fwd_map_of(s).contains_key((hub, bridge_id)) {
        lemma_fwd_map_key(s, hub, bridge_id);
        let i = choose|i: int| 0 <= i < s.len() && (#[trigger] s[i].key()) == (hub, bridge_id);
        lemma_positive_at_key(s, i, hub, bridge_id);
        let f = fwd_map_of(s)[(hub, bridge_id)];
        assert(rat_eq(rat_mul(f, rat_recip(f)), rat_one())) by {
            crate::rational::lemma_mul_recip_is_one(f);
        }
    }
}

/// The synthesized implied rate through a bridge equals the quotient of
/// the two forward rates: rate(h1, b) * inverse(b, h2) and
/// rate(h1, b) / rate(h2, b) are the same rational, because the bridge's
/// own unit cancels.
pub proof fn lemma_implied_rate_is_forward_quotient(
    idx: &HubBridgeIndex,
    h1: TradingCurrencyType,
    h2: TradingCurrencyType,
    bridge_id: u64,
)
    requires
        idx.wf(),
        idx.forward_map().contains_key((h1, bridge_id)),
        idx.forward_map().contains_key((h2, bridge_id)),
    ensures
        idx.inverse_map().contains_key((bridge_id, h2)),
        rat_eq(
            rat_mul(idx.forward_map()[(h1, bridge_id)], idx.inverse_map()[(bridge_id, h2)]),
            rat_div(idx.forward_map()[(h1, bridge_id)], idx.forward_map()[(h2, bridge_id)]),
        ),
{
    lemma_maps_mirror(idx.entries_seq(), h2, bridge_id);
}

/// Every key of the hub-bridge forward map is witnessed by a valid bridge
/// quote: one hub side and one item side, both priced positively. In
/// particular a quote whose two sides are both hubs never contributes an
/// entry.
pub proof fn lemma_index_entries_only_from_bridge_quotes(
    rs: Seq<ExchangeRecord>,
    hub: TradingCurrencyType,
    bridge_id: u64,
)
    requires
        records_fwd_map(rs).contains_key((hub, bridge_id)),
    ensures
        exists|i: int|
            0 <= i < rs.len() && (#[trigger] rs[i]).spec_is_valid_bridge() && !(
            rs[i].spec_currencies().0.is_hub() && rs[i].spec_currencies().1.is_hub())
                && rs[i].spec_hub() == hub && rs[i].spec_bridge_id() == bridge_id
                && rs[i].spec_hub_price() > 0 && rs[i].spec_bridge_price() > 0,
{
    lemma_records_fwd_key(rs, hub, bridge_id);
    let i = choose|i: int|
        0 <= i < rs.len() && spec_indexable(#[trigger] rs[i]) && rs[i].spec_hub() == hub
            && rs[i].spec_bridge_id() == bridge_id;
    assert(rs[i].spec_is_valid_bridge());
}

/// In a well-formed index the forward value at any present key is
/// positive in both parts.
proof fn lemma_positive_at_key(
    s: Seq<IndexEntry>,
    i: int,
    hub: TradingCurrencyType,
    bridge_id: u64,
)
    requires
        unique_keys(s),
        entries_wf(s),
        0 <= i < s.len(),
        s[i].key() == (hub, bridge_id),
    ensures
        fwd_map_of(s).contains_key((hub, bridge_id)),
        fwd_map_of(s)[(hub, bridge_id)].num > 0,
        fwd_map_of(s)[(hub, bridge_id)].den > 0,
{
    lemma_maps_at_last_occurrence(s, i);
}

} // verus!
