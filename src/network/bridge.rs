//! Bridge matchups between the subnetworks of a network: the first block is
//! the hub, every other block a spoke, and the items left over after the
//! blocks form the remainder matchup.
use vstd::prelude::*;
use std::collections::VecDeque;
use crate::common_types::{BaseInt, InputInt};
use crate::gber::{components_total, Decomposition};
use crate::network::matchup::matchup_within;

verus! {

/// `quantity` indices spread over a block of `size` items starting at
/// `offset`, one every `size / quantity` items.
pub open spec fn uniform_picks(size: int, quantity: int, offset: int) -> Seq<InputInt> {
    Seq::new(quantity as nat, |k: int| (offset + k * (size / quantity)) as InputInt)
}

/// Seats `(hub, spoke)` of a bridge matchup of `b` items between a hub of
/// exponent `h` and a spoke of exponent `s`: the hub's share follows the
/// ratio of the exponents, rounded down.
pub open spec fn seat_allocation(h: int, s: int, b: int) -> (BaseInt, BaseInt) {
    if b == 2 {
        (1, 1)
    } else {
        let hub = (b * h) / (h + s);
        (hub as BaseInt, (b - hub) as BaseInt)
    }
}

/// The positive exponents of a list of components, in order.
pub open spec fn positive_exponents(components: Seq<(InputInt, u8)>) -> Seq<u8>
    decreases components.len(),
{
    if components.len() == 0 {
        seq![]
    } else {
        let rest = positive_exponents(components.drop_last());
        if components.last().1 > 0 {
            rest.push(components.last().1)
        } else {
            rest
        }
    }
}

/// The seats of the bridges from the hub, the first exponent, to every
/// other exponent, in order.
pub open spec fn allocations_for(exponents: Seq<u8>, b: int) -> Seq<(BaseInt, BaseInt)> {
    exponents.drop_first().map_values(|e: u8| seat_allocation(exponents[0] as int, e as int, b))
}

/// The sum of the first `i` hub seats.
pub open spec fn hub_seats_upto(allocations: Seq<(BaseInt, BaseInt)>, i: int) -> int
    decreases i,
{
    if i <= 0 {
        0
    } else {
        hub_seats_upto(allocations, i - 1) + allocations[i - 1].0
    }
}

/// The sum of the first `i` sizes.
pub open spec fn sizes_upto(sizes: Seq<InputInt>, i: int) -> int
    decreases i,
{
    if i <= 0 {
        0
    } else {
        sizes_upto(sizes, i - 1) + sizes[i - 1]
    }
}

/// The seats of the bridges from the hub of a decomposition to its spokes.
pub open spec fn bridge_allocations(d: Decomposition) -> Seq<(BaseInt, BaseInt)> {
    allocations_for(d.component_powers@, d.base as int)
}

/// How many items the hub hands to the bridges and the remainder matchup.
pub open spec fn reserved_hub_seats(d: Decomposition) -> int {
    let allocations = bridge_allocations(d);
    hub_seats_upto(allocations, allocations.len() as int) + if d.remainder > 0 {
        d.base - d.remainder
    } else {
        0
    }
}

/// The hub can hand out the seats that the bridges ask of it, each a
/// different item: there are no more of them than items in the hub, nor than
/// a `BaseInt` counts.
pub open spec fn hub_can_seat(d: Decomposition) -> bool {
    d.component_powers@.len() == 0 || {
        &&& reserved_hub_seats(d) <= d.component_sizes()[0]
        &&& reserved_hub_seats(d) <= BaseInt::MAX
    }
}

/// The items of the hub (the first block) that take the bridge seats.
pub open spec fn hub_picks(d: Decomposition) -> Seq<InputInt> {
    uniform_picks(d.component_sizes()[0] as int, reserved_hub_seats(d), 0)
}

/// The bridge matchup between the hub and the spoke `i` (from 1): the
/// spoke's share of the hub items, then items taken uniformly from the spoke.
pub open spec fn spoke_matchup(d: Decomposition, i: int) -> Seq<InputInt> {
    let allocations = bridge_allocations(d);
    let sizes = d.component_sizes();
    let h = hub_seats_upto(allocations, i - 1);
    hub_picks(d).subrange(h, h + allocations[i - 1].0) + uniform_picks(
        sizes[i] as int,
        allocations[i - 1].1 as int,
        sizes_upto(sizes, i),
    )
}

/// The remainder matchup: the rest of the reserved hub items, then the
/// `remainder` items after all blocks.
pub open spec fn remainder_matchup(d: Decomposition) -> Seq<InputInt> {
    let allocations = bridge_allocations(d);
    let sizes = d.component_sizes();
    let h = hub_seats_upto(allocations, allocations.len() as int);
    let g = sizes_upto(sizes, sizes.len() as int);
    hub_picks(d).subrange(h, h + d.base - d.remainder) + Seq::new(
        d.remainder as nat,
        |j: int| (g + j) as InputInt,
    )
}

/// The inter-subnetwork matchups of a decomposition: one bridge per spoke, in
/// order, then the remainder matchup when there is a remainder. None when
/// there is no block, or when the hub reserves no seat.
pub open spec fn intersubnetwork_plan(d: Decomposition) -> Seq<Seq<InputInt>> {
    let n = d.component_powers@.len();
    if n == 0 || reserved_hub_seats(d) == 0 {
        seq![]
    } else {
        Seq::new((n - 1) as nat, |i: int| spoke_matchup(d, i + 1)) + if d.remainder > 0 {
            seq![remainder_matchup(d)]
        } else {
            seq![]
        }
    }
}

/// Take `quantity` indices uniformly from a block of `network_size` items
/// starting at `offset`: `offset`, `offset + stride`, `offset + 2 * stride`, ...
/// with `stride = network_size / quantity`. The quantity must lie between one
/// and the block size, so that the indices are distinct.
pub fn take_elements_uniformly(network_size: InputInt, quantity: BaseInt, offset: InputInt) -> (r: Vec<InputInt>)
    requires
        1 <= quantity <= network_size,
        offset + network_size <= u32::MAX + 1,
    ensures
        r@ == uniform_picks(network_size as int, quantity as int, offset as int),
{
    let window_size: InputInt = network_size / quantity as InputInt;
    let mut elements: Vec<InputInt> = Vec::new();
    let mut k: BaseInt = 0;
    while k < quantity
        invariant
            k <= quantity,
            quantity >= 1,
            offset + network_size <= u32::MAX + 1,
            window_size == network_size as int / quantity as int,
            elements@ == uniform_picks(network_size as int, quantity as int, offset as int).take(k as int),
        decreases quantity - k,
    {
        let ghost q = quantity as int;
        let ghost s = network_size as int;
        let ghost w = window_size as int;
        assert(k * w <= s && (w > 0 ==> k * w <= s - 1) && (w == 0 ==> k * w == 0)) by (nonlinear_arith)
            requires
                0 <= k < q,
                w == s / q,
                q >= 1,
                s >= 0,
        ;
        elements.push(offset + k as InputInt * window_size);
        k = k + 1;
        assert(elements@ =~= uniform_picks(network_size as int, quantity as int, offset as int).take(k as int));
    }
    assert(elements@ =~= uniform_picks(network_size as int, quantity as int, offset as int));
    elements
}

/// Allocate the seats of a bridge matchup between a hub and a spoke.
pub fn allocate_matchup_seats_for(hub_exponent: u8, spoke_exponent: u8, matchup_size: BaseInt) -> (r: (
    BaseInt,
    BaseInt,
))
    requires
        matchup_size == 2 || hub_exponent + spoke_exponent > 0,
    ensures
        r == seat_allocation(hub_exponent as int, spoke_exponent as int, matchup_size as int),
        matchup_size >= 2 ==> r.0 + r.1 == matchup_size,
        matchup_size >= 2 && spoke_exponent > 0 ==> r.1 >= 1,
{
    if matchup_size == 2 {
        return (1, 1);
    }
    let total_ratio_pool: u32 = hub_exponent as u32 + spoke_exponent as u32;
    let ghost b = matchup_size as int;
    let ghost h = hub_exponent as int;
    let ghost pool = total_ratio_pool as int;
    assert(b * h <= pool * b && (spoke_exponent > 0 && b > 0 ==> b * h < pool * b) && b * h >= 0) by (nonlinear_arith)
        requires
            pool == h + spoke_exponent,
            pool > 0,
            h >= 0,
            b >= 0,
    ;
    proof {
        vstd::arithmetic::div_mod::lemma_multiply_divide_le(b * h, pool, b);
        if spoke_exponent > 0 && b > 0 {
            vstd::arithmetic::div_mod::lemma_multiply_divide_lt(b * h, pool, b);
        }
        vstd::arithmetic::div_mod::lemma_div_pos_is_pos(b * h, pool);
    }
    assert(b * h <= 0xffff * 0xff) by (nonlinear_arith)
        requires
            0 <= b <= 0xffff,
            0 <= h <= 0xff,
    ;
    let hub_seats: BaseInt = ((matchup_size as u32 * hub_exponent as u32) / total_ratio_pool) as BaseInt;
    let spoke_seats: BaseInt = matchup_size - hub_seats;
    (hub_seats, spoke_seats)
}

/// Allocate the seats of the bridge matchups of a list of components: the
/// first component of positive exponent is the hub, and every later one of
/// positive exponent a spoke.
pub fn matchup_allocations_for(network_size_components: &[(InputInt, u8)], matchup_size: BaseInt) -> (r: Vec<(BaseInt, BaseInt)>)
    requires
        positive_exponents(network_size_components@).len() > 0,
    ensures
        r@ == allocations_for(positive_exponents(network_size_components@), matchup_size as int),
{
    let ghost comps = network_size_components@;
    let mut allocations: Vec<(BaseInt, BaseInt)> = Vec::new();
    let mut hub_exponent: Option<u8> = None;
    let mut i: usize = 0;
    while i < network_size_components.len()
        invariant
            comps == network_size_components@,
            i <= comps.len(),
            positive_exponents(comps.take(i as int)).len() == 0 ==> hub_exponent is None
                && allocations@.len() == 0,
            positive_exponents(comps.take(i as int)).len() > 0 ==> hub_exponent == Some(
                positive_exponents(comps.take(i as int))[0],
            ) && allocations@ == allocations_for(positive_exponents(comps.take(i as int)), matchup_size as int),
            forall|k: int| 0 <= k < positive_exponents(comps.take(i as int)).len() ==> #[trigger] positive_exponents(comps.take(i as int))[k] > 0,
        decreases comps.len() - i,
    {
        let ghost pe = positive_exponents(comps.take(i as int));
        let component = network_size_components[i];
        proof {
            assert(comps.take(i + 1).drop_last() =~= comps.take(i as int));
        }
        if component.1 > 0 {
            match hub_exponent {
                None => {
                    hub_exponent = Some(component.1);
                    proof {
                        assert(allocations@ =~= allocations_for(pe.push(component.1), matchup_size as int));
                    }
                },
                Some(hub) => {
                    let seats = allocate_matchup_seats_for(hub, component.1, matchup_size);
                    allocations.push(seats);
                    proof {
                        assert(allocations@ =~= allocations_for(pe.push(component.1), matchup_size as int));
                    }
                },
            }
        }
        i = i + 1;
    }
    proof {
        assert(comps.take(comps.len() as int) =~= comps);
    }
    allocations
}

/// Copy `quantity` elements of `view` from `start` on.
pub fn get_vector_slice_from<T: Copy>(view: &[T], start: BaseInt, quantity: BaseInt) -> (r: Vec<T>)
    requires
        start + quantity <= view@.len(),
    ensures
        r@ == view@.subrange(start as int, start + quantity),
{
    let mut slice: Vec<T> = Vec::new();
    let mut k: usize = 0;
    while k < quantity as usize
        invariant
            k <= quantity,
            start + quantity <= view@.len(),
            slice@ == view@.subrange(start as int, start + k),
        decreases quantity - k,
    {
        slice.push(view[start as usize + k]);
        k = k + 1;
        assert(slice@ =~= view@.subrange(start as int, start + k));
    }
    slice
}

/// Whether the hub of a decomposition can seat its bridges, which
/// [`LocalMatchupsManager::new`] and [`StreamNetworkMatchups::new`] need.
pub fn hub_fits_bridges(decomposition: &Decomposition) -> (r: bool)
    requires
        decomposition.wf(),
    ensures
        r == hub_can_seat(*decomposition),
{
    let (component_sizes, _seat_allocations, total_hub_seats) = bridge_seats_of(decomposition);
    component_sizes.len() == 0 || (total_hub_seats <= component_sizes[0] as u64 && total_hub_seats
        <= BaseInt::MAX as u64)
}

/// The sizes of the components of a decomposition, the seats of its
/// bridges, and how many items the hub reserves for them.
fn bridge_seats_of(decomposition: &Decomposition) -> (r: (Vec<InputInt>, Vec<(BaseInt, BaseInt)>, u64))
    requires
        decomposition.wf(),
    ensures
        r.0@ == decomposition.component_sizes(),
        r.0@.len() > 0 ==> r.1@ == bridge_allocations(*decomposition) && r.2 == reserved_hub_seats(
            *decomposition,
        ),
{
    let ghost d = *decomposition;
    let ghost powers = decomposition.component_powers@;
    proof {
        d.lemma_wf_facts();
    }
    let component_sizes = decomposition.stream_all_components();
    let ghost sizes = component_sizes@;
    let n = component_sizes.len();
    if n == 0 {
        return (component_sizes, Vec::new(), 0);
    }
    let mut component_pairs: Vec<(InputInt, u8)> = Vec::new();
    let mut i: usize = 0;
    while i < n
        invariant
            n == sizes.len(),
            sizes == d.component_sizes(),
            component_sizes@ == sizes,
            powers == decomposition.component_powers@,
            powers.len() == n,
            i <= n,
            component_pairs@.len() == i,
            forall|k: int| 0 <= k < i ==> #[trigger] component_pairs@[k] == (sizes[k], powers[k]),
        decreases n - i,
    {
        component_pairs.push((component_sizes[i], decomposition.component_powers[i]));
        i = i + 1;
    }
    proof {
        lemma_positive_exponents_all(component_pairs@, powers);
        lemma_sizes_total(d, n as int);
        assert(powers.take(n as int) =~= powers);
        lemma_sizes_upto_at_least_count(sizes, n as int);
    }
    let seat_allocations = matchup_allocations_for(component_pairs.as_slice(), decomposition.base);
    let ghost allocations = seat_allocations@;
    let mut total_hub_seats: u64 = 0;
    let mut k: usize = 0;
    while k < seat_allocations.len()
        invariant
            allocations == seat_allocations@,
            k <= allocations.len(),
            total_hub_seats == hub_seats_upto(allocations, k as int),
            total_hub_seats <= k * 0xffff,
            allocations.len() < n,
            n <= u32::MAX,
        decreases allocations.len() - k,
    {
        total_hub_seats = total_hub_seats + seat_allocations[k].0 as u64;
        k = k + 1;
    }
    if decomposition.remainder > 0 {
        total_hub_seats = total_hub_seats + (decomposition.base - decomposition.remainder) as u64;
    }
    (component_sizes, seat_allocations, total_hub_seats)
}

/// Append `tail` to `items`.
fn extend_with(items: &mut Vec<InputInt>, tail: &Vec<InputInt>)
    ensures
        final(items)@ == old(items)@ + tail@,
{
    let ghost before = items@;
    let mut k: usize = 0;
    while k < tail.len()
        invariant
            k <= tail@.len(),
            items@ == before + tail@.take(k as int),
        decreases tail@.len() - k,
    {
        items.push(tail[k]);
        k = k + 1;
        assert(items@ =~= before + tail@.take(k as int));
    }
    assert(tail@.take(k as int) =~= tail@);
}

/// Build the bridge matchups that link the hub, the first block of the
/// decomposition, to every other block, and the remainder matchup.
pub fn create_intersubnetwork_matchups(decomposition: &Decomposition) -> (r: VecDeque<Vec<InputInt>>)
    requires
        decomposition.wf(),
        hub_can_seat(*decomposition),
    ensures
        r@.map_values(|m: Vec<InputInt>| m@) == intersubnetwork_plan(*decomposition),
{
    let ghost d = *decomposition;
    let ghost b = decomposition.base as int;
    let ghost powers = decomposition.component_powers@;
    proof {
        d.lemma_wf_facts();
    }
    let (component_sizes, seat_allocations, total_hub_seats) = bridge_seats_of(decomposition);
    let ghost sizes = component_sizes@;
    let ghost allocations = seat_allocations@;
    let n = component_sizes.len();
    proof {
        if n > 0 {
            lemma_allocations_facts(powers, b);
            lemma_sizes_total(d, n as int);
            assert(powers.take(n as int) =~= powers);
        }
    }
    if n == 0 {
        let empty: VecDeque<Vec<InputInt>> = VecDeque::new();
        proof {
            assert(empty@.map_values(|m: Vec<InputInt>| m@) =~= intersubnetwork_plan(d));
        }
        return empty;
    }
    if total_hub_seats == 0 {
        let empty: VecDeque<Vec<InputInt>> = VecDeque::new();
        proof {
            assert(empty@.map_values(|m: Vec<InputInt>| m@) =~= intersubnetwork_plan(d));
        }
        return empty;
    }
    let hub_network_size = component_sizes[0];
    let hub_seats_reserved = take_elements_uniformly(hub_network_size, total_hub_seats as BaseInt, 0);
    proof {
        lemma_sizes_total(d, n as int);
        assert(powers.take(n as int) =~= powers);
        lemma_sizes_upto_monotone(sizes, 1, n as int);
        lemma_hub_seats_upto_monotone(allocations, 0, allocations.len() as int);
    }
    assert(sizes_upto(sizes, 0) == 0);
    assert(sizes_upto(sizes, 1) == sizes[0]);
    let mut index_offset: InputInt = hub_network_size;
    let mut hub_seat_offset: BaseInt = 0;
    let mut inter_matchups: VecDeque<Vec<InputInt>> = VecDeque::new();
    let mut i: usize = 1;
    while i < n
        invariant
            d.wf(),
            d == *decomposition,
            b == d.base,
            powers == d.component_powers@,
            n == sizes.len(),
            n == powers.len(),
            sizes == d.component_sizes(),
            component_sizes@ == sizes,
            allocations == bridge_allocations(d),
            allocations == seat_allocations@,
            allocations.len() == n - 1,
            forall|k: int|
                0 <= k < allocations.len() ==> (#[trigger] allocations[k]).0 + allocations[k].1 == b
                    && allocations[k].1 >= 1,
            forall|k: int| 0 <= k < n ==> b <= #[trigger] sizes[k],
            hub_seats_reserved@ == hub_picks(d),
            total_hub_seats == reserved_hub_seats(d),
            total_hub_seats <= BaseInt::MAX,
            sizes_upto(sizes, n as int) <= u32::MAX,
            1 <= i <= n,
            index_offset == sizes_upto(sizes, i as int),
            hub_seat_offset == hub_seats_upto(allocations, i - 1),
            inter_matchups@.map_values(|m: Vec<InputInt>| m@) == Seq::new(
                (i - 1) as nat,
                |k: int| spoke_matchup(d, k + 1),
            ),
        decreases n - i,
    {
        let (hub_seats, spoke_seats) = seat_allocations[i - 1];
        proof {
            lemma_sizes_upto_monotone(sizes, i + 1, n as int);
            lemma_hub_seats_upto_monotone(allocations, i as int, allocations.len() as int);
        }
        let reserved_spoke_seats = take_elements_uniformly(component_sizes[i], spoke_seats, index_offset);
        let mut matchup = get_vector_slice_from(hub_seats_reserved.as_slice(), hub_seat_offset, hub_seats);
        extend_with(&mut matchup, &reserved_spoke_seats);
        assert(matchup@ == spoke_matchup(d, i as int));
        let ghost before = inter_matchups@.map_values(|m: Vec<InputInt>| m@);
        let ghost added = matchup@;
        inter_matchups.push_back(matchup);
        assert(inter_matchups@.map_values(|m: Vec<InputInt>| m@) =~= before.push(added));
        index_offset = index_offset + component_sizes[i];
        hub_seat_offset = hub_seat_offset + hub_seats;
        i = i + 1;
        proof {
            assert(inter_matchups@.map_values(|m: Vec<InputInt>| m@) =~= Seq::new(
                (i - 1) as nat,
                |k: int| spoke_matchup(d, k + 1),
            ));
        }
    }
    if decomposition.remainder == 0 {
        proof {
            assert(inter_matchups@.map_values(|m: Vec<InputInt>| m@) =~= intersubnetwork_plan(d));
        }
        return inter_matchups;
    }
    let mut remainder_matchup = get_vector_slice_from(
        hub_seats_reserved.as_slice(),
        hub_seat_offset,
        decomposition.base - decomposition.remainder,
    );
    let ghost hub_part = remainder_matchup@;
    let mut j: BaseInt = 0;
    while j < decomposition.remainder
        invariant
            j <= decomposition.remainder,
            index_offset == sizes_upto(sizes, n as int),
            index_offset + decomposition.remainder <= u32::MAX,
            remainder_matchup@ == hub_part + Seq::new(j as nat, |x: int| (index_offset + x) as InputInt),
        decreases decomposition.remainder - j,
    {
        remainder_matchup.push(index_offset + j as InputInt);
        j = j + 1;
        assert(remainder_matchup@ =~= hub_part + Seq::new(
            j as nat,
            |x: int| (index_offset + x) as InputInt,
        ));
    }
    inter_matchups.push_back(remainder_matchup);
    proof {
        assert(inter_matchups@.map_values(|m: Vec<InputInt>| m@) =~= intersubnetwork_plan(d));
    }
    inter_matchups
}

/// Uniform picks from a block lie in the block.
pub proof fn lemma_uniform_picks_bounds(size: int, quantity: int, offset: int)
    requires
        1 <= quantity <= size,
        0 <= offset,
        offset + size <= u32::MAX + 1,
    ensures
        forall|k: int|
            0 <= k < quantity ==> offset <= #[trigger] uniform_picks(size, quantity, offset)[k] < offset
                + size,
        forall|k1: int, k2: int|
            0 <= k1 < k2 < quantity ==> #[trigger] uniform_picks(size, quantity, offset)[k1]
                < #[trigger] uniform_picks(size, quantity, offset)[k2],
{
    let w = size / quantity;
    assert(w >= 1) by (nonlinear_arith)
        requires
            w == size / quantity,
            1 <= quantity <= size,
    ;
    assert forall|k: int| 0 <= k < quantity implies offset <= #[trigger] uniform_picks(
        size,
        quantity,
        offset,
    )[k] < offset + size && uniform_picks(size, quantity, offset)[k] == offset + k * w by {
        assert(0 <= k * w < size) by (nonlinear_arith)
            requires
                0 <= k < quantity,
                w == size / quantity,
                1 <= quantity <= size,
        ;
    }
    assert forall|k1: int, k2: int| 0 <= k1 < k2 < quantity implies #[trigger] uniform_picks(
        size,
        quantity,
        offset,
    )[k1] < #[trigger] uniform_picks(size, quantity, offset)[k2] by {
        assert(k1 * w < k2 * w) by (nonlinear_arith)
            requires
                k1 < k2,
                w >= 1,
        ;
        assert(uniform_picks(size, quantity, offset)[k1] == offset + k1 * w);
        assert(uniform_picks(size, quantity, offset)[k2] == offset + k2 * w);
    }
}

/// When every exponent is positive, none is filtered out.
pub proof fn lemma_positive_exponents_all(components: Seq<(InputInt, u8)>, exponents: Seq<u8>)
    requires
        components.len() == exponents.len(),
        forall|k: int| 0 <= k < components.len() ==> #[trigger] components[k].1 == exponents[k],
        forall|k: int| 0 <= k < exponents.len() ==> 1 <= #[trigger] exponents[k],
    ensures
        positive_exponents(components) == exponents,
    decreases components.len(),
{
    if components.len() > 0 {
        lemma_positive_exponents_all(components.drop_last(), exponents.drop_last());
        assert(exponents.drop_last().push(exponents.last()) =~= exponents);
    } else {
        assert(exponents =~= seq![]);
    }
}

/// Every bridge seats `b` items, at least one of them in the spoke.
pub proof fn lemma_allocations_facts(exponents: Seq<u8>, b: int)
    requires
        2 <= b <= BaseInt::MAX,
        exponents.len() >= 1,
        forall|k: int| 0 <= k < exponents.len() ==> 1 <= #[trigger] exponents[k],
    ensures
        allocations_for(exponents, b).len() == exponents.len() - 1,
        forall|k: int|
            0 <= k < exponents.len() - 1 ==> (#[trigger] allocations_for(exponents, b)[k]).0
                + allocations_for(exponents, b)[k].1 == b && allocations_for(exponents, b)[k].1 >= 1,
{
    assert forall|k: int| 0 <= k < exponents.len() - 1 implies (#[trigger] allocations_for(exponents, b)[k]).0
        + allocations_for(exponents, b)[k].1 == b && allocations_for(exponents, b)[k].1 >= 1 by {
        let h = exponents[0] as int;
        let s = exponents[k + 1] as int;
        assert(exponents.drop_first()[k] == exponents[k + 1]);
        if b != 2 {
            assert(b * h <= (h + s) * b && b * h < (h + s) * b && b * h >= 0) by (nonlinear_arith)
                requires
                    h >= 1,
                    s >= 1,
                    b >= 2,
            ;
            vstd::arithmetic::div_mod::lemma_multiply_divide_lt(b * h, h + s, b);
            vstd::arithmetic::div_mod::lemma_div_pos_is_pos(b * h, h + s);
        }
    }
}

/// Prefix sums of sizes grow.
pub proof fn lemma_sizes_upto_monotone(sizes: Seq<InputInt>, i: int, j: int)
    requires
        0 <= i <= j <= sizes.len(),
    ensures
        0 <= sizes_upto(sizes, i) <= sizes_upto(sizes, j),
    decreases j,
{
    if j > i {
        lemma_sizes_upto_monotone(sizes, i, j - 1);
    } else if i > 0 {
        lemma_sizes_upto_monotone(sizes, 0, i - 1);
    }
}

/// Sizes of at least one add up to at least their count.
pub proof fn lemma_sizes_upto_at_least_count(sizes: Seq<InputInt>, i: int)
    requires
        0 <= i <= sizes.len(),
        forall|k: int| 0 <= k < sizes.len() ==> 1 <= #[trigger] sizes[k],
    ensures
        i <= sizes_upto(sizes, i),
    decreases i,
{
    if i > 0 {
        lemma_sizes_upto_at_least_count(sizes, i - 1);
    }
}

/// Prefix sums of hub seats grow.
pub proof fn lemma_hub_seats_upto_monotone(allocations: Seq<(BaseInt, BaseInt)>, i: int, j: int)
    requires
        0 <= i <= j <= allocations.len(),
    ensures
        0 <= hub_seats_upto(allocations, i) <= hub_seats_upto(allocations, j),
    decreases j,
{
    if j > i {
        lemma_hub_seats_upto_monotone(allocations, i, j - 1);
    } else if i > 0 {
        lemma_hub_seats_upto_monotone(allocations, 0, i - 1);
    }
}

/// The blocks of a well-formed decomposition add up to its components total.
pub proof fn lemma_sizes_total(d: Decomposition, i: int)
    requires
        d.wf(),
        0 <= i <= d.component_powers@.len(),
    ensures
        sizes_upto(d.component_sizes(), i) == components_total(
            d.component_powers@.take(i),
            d.base as int,
        ),
    decreases i,
{
    d.lemma_wf_facts();
    if i > 0 {
        lemma_sizes_total(d, i - 1);
        assert(d.component_powers@.take(i).drop_last() =~= d.component_powers@.take(i - 1));
    }
}

/// Every inter-subnetwork matchup has `base` distinct items, all indices of the network.
pub proof fn lemma_plan_within(d: Decomposition)
    requires
        d.wf(),
        hub_can_seat(d),
    ensures
        forall|i: int|
            0 <= i < intersubnetwork_plan(d).len() ==> matchup_within(
                #[trigger] intersubnetwork_plan(d)[i],
                d.base as int,
                d.value(),
            ),
{
    let n = d.component_powers@.len() as int;
    if n == 0 || reserved_hub_seats(d) == 0 {
        return;
    }
    d.lemma_wf_facts();
    let b = d.base as int;
    let sizes = d.component_sizes();
    let allocations = bridge_allocations(d);
    let total = reserved_hub_seats(d);
    lemma_allocations_facts(d.component_powers@, b);
    lemma_sizes_total(d, n);
    assert(d.component_powers@.take(n) =~= d.component_powers@);
    lemma_hub_seats_upto_monotone(allocations, 0, allocations.len() as int);
    lemma_uniform_picks_bounds(sizes[0] as int, total, 0);
    lemma_sizes_upto_monotone(sizes, 1, n);
    assert(sizes_upto(sizes, 0) == 0);
    assert(sizes_upto(sizes, 1) == sizes[0]);
    assert(hub_picks(d).len() == total);
    lemma_plan_distinct(d);
    let plan = intersubnetwork_plan(d);
    assert forall|i: int| 0 <= i < plan.len() implies matchup_within(
        #[trigger] plan[i],
        b,
        d.value(),
    ) by {
        if i < n - 1 {
            let s = i + 1;
            lemma_hub_seats_upto_monotone(allocations, s, allocations.len() as int);
            lemma_sizes_upto_monotone(sizes, s + 1, n);
            let g = sizes_upto(sizes, s);
            lemma_sizes_upto_monotone(sizes, s, n);
            lemma_hub_seats_upto_monotone(allocations, s - 1, allocations.len() as int);
            assert(sizes_upto(sizes, s + 1) == g + sizes[s]);
            lemma_uniform_picks_bounds(sizes[s] as int, allocations[s - 1].1 as int, g);
            let m = spoke_matchup(d, s);
            assert(plan[i] == m);
            let h = hub_seats_upto(allocations, s - 1);
            let hs = allocations[s - 1].0 as int;
            assert(hub_seats_upto(allocations, s) == h + hs);
            assert forall|j: int| 0 <= j < m.len() implies #[trigger] m[j] < d.value() by {
                if j < hs {
                    assert(m[j] == hub_picks(d)[h + j]);
                } else {
                    assert(m[j] == uniform_picks(sizes[s] as int, allocations[s - 1].1 as int, g)[j - hs]);
                }
            }
        } else {
            let m = remainder_matchup(d);
            assert(plan[i] == m);
            let h = hub_seats_upto(allocations, allocations.len() as int);
            let g = sizes_upto(sizes, n);
            let r = d.remainder as int;
            assert(d.remainder > 0);
            assert(h + b - r == total);
            assert forall|j: int| 0 <= j < m.len() implies #[trigger] m[j] < d.value() by {
                if j < b - r {
                    assert(m[j] == hub_picks(d)[h + j]);
                } else {
                    assert(m[j] == (g + (j - (b - r))) as InputInt);
                }
            }
        }
    }
}

/// No inter-subnetwork matchup holds an item twice: the hub items come in
/// increasing order from the hub, and the spoke or remainder items in
/// increasing order from after the hub.
pub proof fn lemma_plan_distinct(d: Decomposition)
    requires
        d.wf(),
        hub_can_seat(d),
    ensures
        forall|i: int|
            0 <= i < intersubnetwork_plan(d).len() ==> (#[trigger] intersubnetwork_plan(d)[i]).no_duplicates(),
{
    let n = d.component_powers@.len() as int;
    if n == 0 || reserved_hub_seats(d) == 0 {
        return;
    }
    d.lemma_wf_facts();
    let b = d.base as int;
    let sizes = d.component_sizes();
    let allocations = bridge_allocations(d);
    let total = reserved_hub_seats(d);
    let hub = hub_picks(d);
    lemma_allocations_facts(d.component_powers@, b);
    lemma_sizes_total(d, n);
    assert(d.component_powers@.take(n) =~= d.component_powers@);
    lemma_hub_seats_upto_monotone(allocations, 0, allocations.len() as int);
    lemma_uniform_picks_bounds(sizes[0] as int, total, 0);
    assert(sizes_upto(sizes, 0) == 0);
    assert(sizes_upto(sizes, 1) == sizes[0]);
    let plan = intersubnetwork_plan(d);
    assert forall|i: int| 0 <= i < plan.len() implies (#[trigger] plan[i]).no_duplicates() by {
        if i < n - 1 {
            let s = i + 1;
            lemma_hub_seats_upto_monotone(allocations, s, allocations.len() as int);
            lemma_hub_seats_upto_monotone(allocations, s - 1, allocations.len() as int);
            lemma_sizes_upto_monotone(sizes, 1, s);
            lemma_sizes_upto_monotone(sizes, s + 1, n);
            let g = sizes_upto(sizes, s);
            assert(sizes_upto(sizes, s + 1) == g + sizes[s]);
            let ss = allocations[s - 1].1 as int;
            lemma_uniform_picks_bounds(sizes[s] as int, ss, g);
            let m = spoke_matchup(d, s);
            assert(plan[i] == m);
            let h = hub_seats_upto(allocations, s - 1);
            let hs = allocations[s - 1].0 as int;
            assert(hub_seats_upto(allocations, s) == h + hs);
            let spoke = uniform_picks(sizes[s] as int, ss, g);
            assert forall|x: int, y: int| 0 <= x < y < m.len() implies m[x] < m[y] by {
                if y < hs {
                    assert(m[x] == hub[h + x] && m[y] == hub[h + y]);
                } else if x < hs {
                    assert(m[x] == hub[h + x] && m[y] == spoke[y - hs]);
                } else {
                    assert(m[x] == spoke[x - hs] && m[y] == spoke[y - hs]);
                }
            }
            assert forall|x: int, y: int| 0 <= x < m.len() && 0 <= y < m.len() && x != y implies m[x]
                != m[y] by {
                if x < y {
                    assert(m[x] < m[y]);
                } else {
                    assert(m[y] < m[x]);
                }
            }
        } else {
            let m = remainder_matchup(d);
            assert(plan[i] == m);
            let h = hub_seats_upto(allocations, allocations.len() as int);
            let g = sizes_upto(sizes, n);
            lemma_sizes_upto_monotone(sizes, 1, n);
            let r = d.remainder as int;
            assert(d.remainder > 0);
            assert(h + b - r == total);
            assert forall|x: int, y: int| 0 <= x < y < m.len() implies m[x] < m[y] by {
                if y < b - r {
                    assert(m[x] == hub[h + x] && m[y] == hub[h + y]);
                } else if x < b - r {
                    assert(m[x] == hub[h + x]);
                    assert(m[y] == (g + (y - (b - r))) as InputInt);
                } else {
                    assert(m[x] == (g + (x - (b - r))) as InputInt);
                    assert(m[y] == (g + (y - (b - r))) as InputInt);
                }
            }
            assert forall|x: int, y: int| 0 <= x < m.len() && 0 <= y < m.len() && x != y implies m[x]
                != m[y] by {
                if x < y {
                    assert(m[x] < m[y]);
                } else {
                    assert(m[y] < m[x]);
                }
            }
        }
    }
}

} // verus!
