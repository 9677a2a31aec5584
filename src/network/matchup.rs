//! Generation of matchups for a network based on the GBER of its size.
use vstd::prelude::*;
use std::collections::VecDeque;
use crate::common_types::{BaseInt, InputInt};
use crate::common_utilities::{floor_log, integer_log, lemma_floor_log_bounds, lemma_power_monotone, lemma_small_exponent, power};
use crate::gber::Decomposition;
use crate::network::bridge::{
    create_intersubnetwork_matchups, hub_can_seat, intersubnetwork_plan, lemma_plan_within,
    lemma_sizes_total, lemma_sizes_upto_monotone, sizes_upto,
};
use crate::network::subnetwork::{
    block_matchups, lemma_subnetwork_matchup_bounds, lemma_subnetwork_matchup_distinct, valid_block,
};

pub use crate::network::bridge::{
    allocate_matchup_seats_for, get_vector_slice_from, hub_fits_bridges, matchup_allocations_for,
    take_elements_uniformly,
};
pub use crate::network::subnetwork::{SubnetworkIterator, SubnetworkMatchupIterator};

verus! {

/// The number of matchups of a subnetwork of `size` items.
pub open spec fn matchups_number(size: int, base: int) -> int {
    (size / base) * floor_log(size, base)
}

/// The number of comparisons that one matchup of `base` items yields.
pub open spec fn comparisons_per_matchup(base: int) -> int {
    base * (base - 1) / 2
}

/// The closed-form matchup counts of blocks of the given sizes, added up.
pub open spec fn total_matchups_number(sizes: Seq<InputInt>, base: int) -> int
    decreases sizes.len(),
{
    if sizes.len() == 0 {
        0
    } else {
        matchups_number(sizes[0] as int, base) + total_matchups_number(sizes.drop_first(), base)
    }
}

/// The matchups of every block of a decomposition, block after block.
pub open spec fn all_block_matchups(d: Decomposition) -> Seq<Seq<Seq<InputInt>>> {
    let sizes = d.component_sizes();
    Seq::new(
        sizes.len(),
        |i: int| block_matchups(sizes[i] as int, d.base as int, sizes_upto(sizes, i)),
    )
}

/// All matchups of a network: those inside every block, block after block,
/// then the inter-subnetwork ones.
pub open spec fn network_matchups(d: Decomposition) -> Seq<Seq<InputInt>> {
    all_block_matchups(d).flatten() + intersubnetwork_plan(d)
}

/// A matchup of `base` distinct items, all of them indices below `n`.
pub open spec fn matchup_within(m: Seq<InputInt>, base: int, n: int) -> bool {
    &&& m.len() == base
    &&& m.no_duplicates()
    &&& forall|j: int| 0 <= j < m.len() ==> #[trigger] m[j] < n
}

/// Calculate the number of matchups for a subnetwork of a given size.
/// Since it can be derived mathematically, this is more useful to do
/// than to iterate through the matchups.
pub fn calculate_matchups_number_for(subnetwork_size: InputInt, base: BaseInt) -> (r: u64)
    requires
        subnetwork_size >= 1,
        base >= 2,
    ensures
        r == matchups_number(subnetwork_size as int, base as int),
{
    let initiator_items: u64 = (subnetwork_size / base as InputInt) as u64;
    let matchups_per_item = integer_log(subnetwork_size, base);
    proof {
        lemma_floor_log_bounds(subnetwork_size as int, base as int);
        lemma_small_exponent(base as int, matchups_per_item as int);
        assert(initiator_items * matchups_per_item <= u32::MAX * 32) by (nonlinear_arith)
            requires
                initiator_items <= u32::MAX,
                matchups_per_item < 32,
        ;
    }
    initiator_items * matchups_per_item as u64
}

/// Calculate the number of comparisons for a given number of matchups.
/// Since the number of comparisons is a direct function of the number of matchups,
/// this is more useful to do than to iterate through the matchups.
pub fn calculate_comparisons_number_for(matchups_number: u64, base: BaseInt) -> (r: u64)
    requires
        base >= 2,
        matchups_number * comparisons_per_matchup(base as int) <= u64::MAX,
    ensures
        r == matchups_number * comparisons_per_matchup(base as int),
{
    let base: u64 = base as u64;
    assert(base * (base - 1) <= 0xffff_ffff) by (nonlinear_arith)
        requires
            2 <= base <= 0xffff,
    ;
    let per_matchup: u64 = base * (base - 1) / 2;
    matchups_number * per_matchup
}

/// The matchups of a network in two parts: one iterator per block, and the
/// matchups that link the blocks.
/// Generates intra-subnetwork matchups first,
/// then inter-subnetwork matchups,
/// then remainder matchups.
#[derive(Debug)]
pub struct LocalMatchupsManager {
    pub network_gber: Decomposition,
    pub subnetwork_iterators: VecDeque<SubnetworkMatchupIterator>,
    pub intersubnetwork_matchups: VecDeque<Vec<InputInt>>,
}

impl LocalMatchupsManager {
    /// One iterator per component of the decomposition, each at the offset
    /// where the components before it end, and the inter-subnetwork matchups.
    pub fn new(network_gber: Decomposition) -> (r: Self)
        requires
            network_gber.wf(),
            hub_can_seat(network_gber),
        ensures
            r.network_gber == network_gber,
            r.subnetwork_iterators@.len() == network_gber.component_powers@.len(),
            forall|i: int|
                0 <= i < r.subnetwork_iterators@.len() ==> {
                    let it = #[trigger] r.subnetwork_iterators@[i];
                    &&& it.wf()
                    &&& it.block_size() == network_gber.component_sizes()[i]
                    &&& it.block_base() == network_gber.base
                    &&& it.block_offset() == sizes_upto(network_gber.component_sizes(), i)
                    &&& it.remaining_matchups() == all_block_matchups(network_gber)[i]
                },
            r.intersubnetwork_matchups@.map_values(|m: Vec<InputInt>| m@) == intersubnetwork_plan(
                network_gber,
            ),
    {
        let ghost d = network_gber;
        proof {
            d.lemma_wf_facts();
            lemma_sizes_total(d, d.component_powers@.len() as int);
            assert(d.component_powers@.take(d.component_powers@.len() as int) =~= d.component_powers@);
        }
        let component_sizes = network_gber.stream_all_components();
        let ghost sizes = component_sizes@;
        let mut rolling_offset: InputInt = 0;
        let mut subnetwork_iterators: VecDeque<SubnetworkMatchupIterator> = VecDeque::new();
        let mut i: usize = 0;
        while i < component_sizes.len()
            invariant
                d.wf(),
                d == network_gber,
                sizes == d.component_sizes(),
                sizes == component_sizes@,
                sizes.len() == d.component_powers@.len(),
                forall|k: int|
                    0 <= k < sizes.len() ==> #[trigger] sizes[k] == power(
                        d.base as int,
                        d.component_powers@[k] as int,
                    ),
                forall|k: int| 0 <= k < sizes.len() ==> 1 <= #[trigger] d.component_powers@[k],
                sizes_upto(sizes, sizes.len() as int) <= u32::MAX,
                i <= sizes.len(),
                rolling_offset == sizes_upto(sizes, i as int),
                subnetwork_iterators@.len() == i,
                forall|k: int|
                    0 <= k < i ==> {
                        let it = #[trigger] subnetwork_iterators@[k];
                        &&& it.wf()
                        &&& it.block_size() == sizes[k]
                        &&& it.block_base() == d.base
                        &&& it.block_offset() == sizes_upto(sizes, k)
                        &&& it.remaining_matchups() == all_block_matchups(d)[k]
                    },
            decreases sizes.len() - i,
        {
            let sn_size = component_sizes[i];
            proof {
                let b = d.base as int;
                let p = d.component_powers@[i as int] as int;
                vstd::arithmetic::logarithm::lemma_log_pow(b, p as nat);
                lemma_power_monotone(b, 0, p);
                lemma_sizes_upto_monotone(sizes, i + 1, sizes.len() as int);
                assert(sizes_upto(sizes, i + 1) == rolling_offset + sn_size);
                assert(floor_log(sn_size as int, b) == p);
                assert(valid_block(sn_size as int, b, rolling_offset as int));
            }
            let created = SubnetworkMatchupIterator::new(sn_size, network_gber.base, rolling_offset);
            let iter = created.unwrap();
            proof {
                assert(iter.remaining_matchups() =~= all_block_matchups(d)[i as int]);
            }
            subnetwork_iterators.push_back(iter);
            rolling_offset = rolling_offset + sn_size;
            i = i + 1;
        }
        let intersubnetwork_matchups = create_intersubnetwork_matchups(&network_gber);
        Self { network_gber, subnetwork_iterators, intersubnetwork_matchups }
    }
}

/// The matchups of a whole network as one stream: the matchups of every
/// subnetwork, subnetwork after subnetwork, then the inter-subnetwork
/// matchups, the remainder matchup last: its hub items first, then the items
/// left over after the blocks.
#[derive(Debug)]
pub struct StreamNetworkMatchups {
    pub network_gber: Decomposition,
    subnetwork_iterators: VecDeque<SubnetworkMatchupIterator>,
    intersubnetwork_matchups: VecDeque<Vec<InputInt>>,
}

impl StreamNetworkMatchups {
    /// Every iterator of the stream is well formed.
    pub closed spec fn wf(&self) -> bool {
        forall|i: int|
            0 <= i < self.subnetwork_iterators@.len() ==> (#[trigger] self.subnetwork_iterators@[i]).wf()
    }

    /// The matchups that the stream has yet to hand out, in order.
    pub closed spec fn remaining(&self) -> Seq<Seq<InputInt>> {
        self.subnetwork_iterators@.map_values(
            |it: SubnetworkMatchupIterator| it.remaining_matchups(),
        ).flatten() + self.intersubnetwork_matchups@.map_values(|m: Vec<InputInt>| m@)
    }

    /// The stream of all matchups of the network that `network_gber` decomposes.
    pub fn new(network_gber: Decomposition) -> (r: Self)
        requires
            network_gber.wf(),
            hub_can_seat(network_gber),
        ensures
            r.wf(),
            r.remaining() == network_matchups(network_gber),
    {
        let ghost d = network_gber;
        let manager = LocalMatchupsManager::new(network_gber);
        let r = Self {
            network_gber: manager.network_gber,
            subnetwork_iterators: manager.subnetwork_iterators,
            intersubnetwork_matchups: manager.intersubnetwork_matchups,
        };
        proof {
            assert(r.subnetwork_iterators@.map_values(
                |it: SubnetworkMatchupIterator| it.remaining_matchups(),
            ) =~= all_block_matchups(d));
        }
        r
    }

    /// The next matchup of the network; `None` once all are out.
    pub fn next(&mut self) -> (r: Option<Vec<InputInt>>)
        requires
            old(self).wf(),
        ensures
            final(self).wf(),
            old(self).remaining().len() > 0 ==> {
                &&& r matches Some(m) && m@ == old(self).remaining()[0]
                &&& final(self).remaining() == old(self).remaining().drop_first()
            },
            old(self).remaining().len() == 0 ==> {
                &&& r is None
                &&& final(self).remaining() == old(self).remaining()
            },
    {
        let ghost start = self.remaining();
        while self.subnetwork_iterators.len() > 0
            invariant
                self.wf(),
                self.remaining() == start,
                start == old(self).remaining(),
            decreases self.subnetwork_iterators@.len(),
        {
            let ghost its = self.subnetwork_iterators@;
            let ghost inter = self.intersubnetwork_matchups@.map_values(|m: Vec<InputInt>| m@);
            let ghost views = its.map_values(|it: SubnetworkMatchupIterator| it.remaining_matchups());
            let mut current = self.subnetwork_iterators.pop_front().unwrap();
            proof {
                assert(self.subnetwork_iterators@.map_values(
                    |it: SubnetworkMatchupIterator| it.remaining_matchups(),
                ) =~= views.drop_first());
                assert(self.wf());
                current.lemma_emitted_bounds();
            }
            let ghost before = current;
            proof {
                assert(views[0] == before.remaining_matchups());
                assert(views.flatten() == views[0] + views.drop_first().flatten());
            }
            match current.next() {
                Some(matchup) => {
                    self.subnetwork_iterators.push_front(current);
                    proof {
                        let now = self.subnetwork_iterators@.map_values(
                            |it: SubnetworkMatchupIterator| it.remaining_matchups(),
                        );
                        assert(now.flatten() == now[0] + now.drop_first().flatten());
                        assert(self.subnetwork_iterators@[0] == current);
                        assert(current.remaining_matchups() =~= before.remaining_matchups().drop_first());
                        assert(self.subnetwork_iterators@.map_values(
                            |it: SubnetworkMatchupIterator| it.remaining_matchups(),
                        ) =~= seq![current.remaining_matchups()] + views.drop_first());
                        assert(self.subnetwork_iterators@.map_values(
                            |it: SubnetworkMatchupIterator| it.remaining_matchups(),
                        ).drop_first() =~= views.drop_first());
                        assert(self.remaining() =~= start.drop_first());
                        assert(before.remaining_matchups()[0] == before.matchup_at(before.emitted()));
                        assert(matchup@ == start[0]);
                    }
                    return Some(matchup);
                },
                None => {
                    proof {
                        assert(before.remaining_matchups() =~= Seq::<Seq<InputInt>>::empty());
                        assert(views.flatten() =~= views.drop_first().flatten());
                    }
                },
            }
        }
        proof {
            assert(self.subnetwork_iterators@.map_values(
                |it: SubnetworkMatchupIterator| it.remaining_matchups(),
            ) =~= Seq::<Seq<Seq<InputInt>>>::empty());
            assert(self.remaining() =~= self.intersubnetwork_matchups@.map_values(|m: Vec<InputInt>| m@));
        }
        let r = self.intersubnetwork_matchups.pop_front();
        proof {
            assert(self.remaining() =~= self.intersubnetwork_matchups@.map_values(|m: Vec<InputInt>| m@));
        }
        r
    }
}

/// What holds of every inner sequence holds of every element of the flattening.
pub proof fn lemma_flatten_forall<A>(ss: Seq<Seq<A>>, pred: spec_fn(A) -> bool)
    requires
        forall|k: int, j: int| 0 <= k < ss.len() && 0 <= j < ss[k].len() ==> pred(#[trigger] ss[k][j]),
    ensures
        forall|i: int| 0 <= i < ss.flatten().len() ==> pred(#[trigger] ss.flatten()[i]),
    decreases ss.len(),
{
    if ss.len() > 0 {
        let rest = ss.drop_first();
        assert forall|k: int, j: int| 0 <= k < rest.len() && 0 <= j < rest[k].len() implies pred(
            #[trigger] rest[k][j],
        ) by {
            assert(rest[k] == ss[k + 1]);
        }
        lemma_flatten_forall(rest, pred);
        assert forall|i: int| 0 <= i < ss.flatten().len() implies pred(#[trigger] ss.flatten()[i]) by {
            if i < ss[0].len() {
                assert(ss.flatten()[i] == ss[0][i]);
            } else {
                assert(ss.flatten()[i] == rest.flatten()[i - ss[0].len()]);
            }
        }
    }
}

/// Lists of matchups with the closed-form count of each block flatten to
/// the sum of the counts.
proof fn lemma_flatten_counts(ss: Seq<Seq<Seq<InputInt>>>, sizes: Seq<InputInt>, base: int)
    requires
        ss.len() == sizes.len(),
        forall|i: int| 0 <= i < ss.len() ==> (#[trigger] ss[i]).len() == matchups_number(sizes[i] as int, base),
    ensures
        ss.flatten().len() == total_matchups_number(sizes, base),
    decreases ss.len(),
{
    if ss.len() > 0 {
        let rest = ss.drop_first();
        assert forall|i: int| 0 <= i < rest.len() implies (#[trigger] rest[i]).len() == matchups_number(
            sizes.drop_first()[i] as int,
            base,
        ) by {
            assert(rest[i] == ss[i + 1]);
        }
        lemma_flatten_counts(rest, sizes.drop_first(), base);
    }
}

/// The subnetworks of a network hold, together, the sum over its components
/// of the closed-form matchup count of each.
pub proof fn lemma_counting_agreement(d: Decomposition)
    requires
        d.wf(),
    ensures
        all_block_matchups(d).flatten().len() == total_matchups_number(d.component_sizes(), d.base as int),
{
    let sizes = d.component_sizes();
    let b = d.base as int;
    d.lemma_wf_facts();
    assert forall|i: int| 0 <= i < sizes.len() implies (#[trigger] all_block_matchups(d)[i]).len()
        == matchups_number(sizes[i] as int, b) by {
        lemma_floor_log_bounds(sizes[i] as int, b);
        let x = sizes[i] as int / b;
        let l = floor_log(sizes[i] as int, b);
        assert(x * l >= 0) by (nonlinear_arith)
            requires
                x >= 0,
                l >= 0,
        ;
    }
    lemma_flatten_counts(all_block_matchups(d), sizes, b);
}

/// Every matchup of a network has `base` items, all indices of the network.
proof fn lemma_network_matchups_within(d: Decomposition)
    requires
        d.wf(),
        hub_can_seat(d),
    ensures
        forall|i: int|
            0 <= i < network_matchups(d).len() ==> matchup_within(
                #[trigger] network_matchups(d)[i],
                d.base as int,
                d.value(),
            ),
{
    d.lemma_wf_facts();
    let n = d.component_powers@.len() as int;
    let b = d.base as int;
    let sizes = d.component_sizes();
    let blocks = all_block_matchups(d);
    lemma_sizes_total(d, n);
    assert(d.component_powers@.take(n) =~= d.component_powers@);
    assert forall|k: int, m: int| 0 <= k < blocks.len() && 0 <= m < blocks[k].len() implies matchup_within(
        #[trigger] blocks[k][m],
        b,
        d.value(),
    ) by {
        let p = d.component_powers@[k] as int;
        let g = sizes_upto(sizes, k);
        vstd::arithmetic::logarithm::lemma_log_pow(b, p as nat);
        lemma_power_monotone(b, 0, p);
        lemma_sizes_upto_monotone(sizes, k + 1, n);
        lemma_sizes_upto_monotone(sizes, k, n);
        assert(sizes_upto(sizes, k + 1) == g + sizes[k]);
        assert(floor_log(sizes[k] as int, b) == p);
        assert(valid_block(sizes[k] as int, b, g));
        lemma_subnetwork_matchup_bounds(sizes[k] as int, b, g, m);
        lemma_subnetwork_matchup_distinct(sizes[k] as int, b, g, m);
    }
    lemma_flatten_forall(blocks, |m: Seq<InputInt>| matchup_within(m, b, d.value()));
    lemma_plan_within(d);
    let all = network_matchups(d);
    assert forall|i: int| 0 <= i < all.len() implies matchup_within(#[trigger] all[i], b, d.value()) by {
        if i < blocks.flatten().len() {
            assert(all[i] == blocks.flatten()[i]);
        } else {
            assert(all[i] == intersubnetwork_plan(d)[i - blocks.flatten().len()]);
        }
    }
}

/// Every matchup of a network has exactly `base` items.
pub proof fn lemma_network_matchup_size(d: Decomposition)
    requires
        d.wf(),
        hub_can_seat(d),
    ensures
        forall|i: int|
            0 <= i < network_matchups(d).len() ==> (#[trigger] network_matchups(d)[i]).len() == d.base,
{
    lemma_network_matchups_within(d);
}

/// Every item of every matchup of a network is an index of the network:
/// it lies below the number that the decomposition stands for.
pub proof fn lemma_network_index_bounds(d: Decomposition)
    requires
        d.wf(),
        hub_can_seat(d),
    ensures
        forall|i: int, j: int|
            0 <= i < network_matchups(d).len() && 0 <= j < network_matchups(d)[i].len()
                ==> #[trigger] network_matchups(d)[i][j] < d.value(),
{
    lemma_network_matchups_within(d);
}

/// No matchup of a network holds an item twice.
pub proof fn lemma_network_items_distinct(d: Decomposition)
    requires
        d.wf(),
        hub_can_seat(d),
    ensures
        forall|i: int|
            0 <= i < network_matchups(d).len() ==> (#[trigger] network_matchups(d)[i]).no_duplicates(),
{
    lemma_network_matchups_within(d);
}

} // verus!
