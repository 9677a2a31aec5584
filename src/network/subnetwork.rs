//! Matchups inside one subnetwork: a block of `base^p` consecutive items,
//! matched level by level.
use vstd::prelude::*;
use vstd::arithmetic::div_mod::{
    lemma_div_by_multiple, lemma_fundamental_div_mod, lemma_fundamental_div_mod_converse,
    lemma_mod_add_multiples_vanish,
};
use vstd::arithmetic::power::lemma_pow_adds;
use crate::common_types::{BaseInt, InputInt};
use crate::common_utilities::{
    base_power, floor_log, integer_log, lemma_floor_log_bounds, lemma_pow_step, lemma_power_monotone,
    lemma_power_strictly_monotone, power,
};
use crate::network::matchup::matchups_number;

verus! {

/// A block of `size` items from `offset` on that a subnetwork iterator can
/// cover: its size is a power of the base, and its indices fit in `InputInt`.
pub open spec fn valid_block(size: int, base: int, offset: int) -> bool {
    &&& base >= 2
    &&& size >= 1
    &&& size == power(base, floor_log(size, base))
    &&& 0 <= offset
    &&& offset + size <= u32::MAX + 1
}

/// The `k`-th matchup (from 0) of the subnetwork of `size` items at `offset`.
///
/// Level `l` (from 1) cuts the block into `base^l` sections of width
/// `w = size / base^l` and yields `size / base` matchups: the sections go in
/// groups of `base`, and the `t`-th matchup of group `g` takes item `t` of
/// each section of the group.
pub open spec fn subnetwork_matchup(size: int, base: int, offset: int, k: int) -> Seq<InputInt> {
    Seq::new(base as nat, |j: int| matchup_item(size, base, offset, k, j) as InputInt)
}

/// Item `j` of the `k`-th matchup of the subnetwork of `size` items at `offset`.
pub open spec fn matchup_item(size: int, base: int, offset: int, k: int, j: int) -> int {
    let per_level = size / base;
    let level = k / per_level + 1;
    let m = k % per_level;
    let w = size / power(base, level);
    offset + ((m / w) * base + j) * w + m % w
}

/// All matchups of the block of `size` items at `offset`, in order.
pub open spec fn block_matchups(size: int, base: int, offset: int) -> Seq<Seq<InputInt>> {
    Seq::new(matchups_number(size, base) as nat, |k: int| subnetwork_matchup(size, base, offset, k))
}

/// Sections of width `w` at rest: those before the group head `gh` are
/// exhausted, those after its group untouched, and each section of the
/// group has handed out the same number of items, fewer than `w`.
pub open spec fn sections_at(st: Seq<(InputInt, InputInt)>, gh: int, b: int, w: int) -> bool {
    &&& 0 <= gh <= st.len()
    &&& forall|i: int| 0 <= i < st.len() ==> (#[trigger] st[i]).1 == (i + 1) * w
    &&& forall|i: int| 0 <= i < gh ==> (#[trigger] st[i]).0 == (i + 1) * w
    &&& forall|i: int| gh + b <= i < st.len() ==> (#[trigger] st[i]).0 == i * w
    &&& gh < st.len() ==> {
        &&& 0 <= st[gh].0 - gh * w < w
        &&& forall|i: int|
            gh <= i < gh + b ==> (#[trigger] st[i]).0 == i * w + (st[gh].0 - gh * w)
    }
}

/// Iterator over the matchups of a subnetwork.
/// References elements of the subnetwork by their index.
/// Indices are 0-based and global to the whole network.
#[derive(Debug)]
pub struct SubnetworkMatchupIterator {
    /// Should be an integer component of a GBER term.
    pub network_size: InputInt,
    /// Coincides with the base of the GBER.
    pub matchup_size: BaseInt,
    /// Index offset for the items in the subnetwork.
    pub offset: InputInt,
    /// The last level: the logarithm of the network size in the matchup size.
    depth: u8,
    level: u8,
    /// Current item and exclusive end item of each section of the level.
    section_states: Vec<(InputInt, InputInt)>,
    section_group_head: usize,
}

/// Shorter name of [`SubnetworkMatchupIterator`].
pub type SubnetworkIterator = SubnetworkMatchupIterator;

impl SubnetworkMatchupIterator {
    /// The state is that of a level at rest, or of the start.
    pub closed spec fn wf(&self) -> bool {
        let b = self.matchup_size as int;
        let st = self.section_states@;
        let gh = self.section_group_head as int;
        &&& valid_block(self.network_size as int, b, self.offset as int)
        &&& self.depth == floor_log(self.network_size as int, b)
        &&& self.level <= self.depth
        &&& gh <= st.len()
        &&& self.level == 0 ==> st.len() == 0 && gh == 0
        &&& self.level >= 1 ==> {
            &&& st.len() == power(b, self.level as int)
            &&& gh % b == 0
            &&& sections_at(st, gh, b, self.width())
        }
    }

    /// Width of a section at the current level.
    closed spec fn width(&self) -> int {
        self.network_size as int / power(self.matchup_size as int, self.level as int)
    }

    /// How many matchups the iterator has handed out.
    pub closed spec fn emitted(&self) -> int {
        let b = self.matchup_size as int;
        let per_level = self.network_size as int / b;
        let st = self.section_states@;
        let gh = self.section_group_head as int;
        let w = self.width();
        if self.level == 0 {
            0
        } else if gh >= st.len() {
            self.level * per_level
        } else {
            (self.level - 1) * per_level + (gh / b) * w + (st[gh].0 - gh * w)
        }
    }

    /// How many matchups the iterator hands out in all.
    pub closed spec fn total(&self) -> int {
        matchups_number(self.network_size as int, self.matchup_size as int)
    }

    /// The number of items of the block.
    pub closed spec fn block_size(&self) -> int {
        self.network_size as int
    }

    /// The size of every matchup.
    pub closed spec fn block_base(&self) -> int {
        self.matchup_size as int
    }

    /// The index of the first item of the block.
    pub closed spec fn block_offset(&self) -> int {
        self.offset as int
    }

    /// The matchup that the iterator hands out after `k` others.
    pub open spec fn matchup_at(&self, k: int) -> Seq<InputInt> {
        subnetwork_matchup(self.block_size(), self.block_base(), self.block_offset(), k)
    }

    /// The matchups that the iterator has yet to hand out, in order.
    pub open spec fn remaining_matchups(&self) -> Seq<Seq<InputInt>> {
        Seq::new((self.total() - self.emitted()) as nat, |i: int| self.matchup_at(self.emitted() + i))
    }

    /// An iterator over the matchups of the block of `network_size` items
    /// from `offset` on. The block size must be a power of the matchup
    /// size, which must be at least two, and the indices must fit in
    /// `InputInt`.
    pub fn new(network_size: InputInt, matchup_size: BaseInt, offset: InputInt) -> (r: Result<Self, String>)
        ensures
            r is Ok <==> valid_block(network_size as int, matchup_size as int, offset as int),
            r matches Ok(it) ==> {
                &&& it.wf()
                &&& it.block_size() == network_size
                &&& it.block_base() == matchup_size
                &&& it.block_offset() == offset
                &&& it.emitted() == 0
                &&& it.remaining_matchups() == block_matchups(
                    network_size as int,
                    matchup_size as int,
                    offset as int,
                )
            },
    {
        if matchup_size < 2 {
            return Err("The matchup size must be greater than 1.".to_owned());
        }
        if network_size == 0 {
            return Err("The network size must be positive.".to_owned());
        }
        let depth = integer_log(network_size, matchup_size);
        if base_power(matchup_size, depth) != network_size {
            return Err("The network size must be a power of the matchup size.".to_owned());
        }
        if network_size - 1 > InputInt::MAX - offset {
            return Err("The network indices must fit in the index type.".to_owned());
        }
        let it = Self {
            network_size,
            matchup_size,
            offset,
            depth,
            level: 0,
            section_states: Vec::new(),
            section_group_head: 0,
        };
        proof {
            it.lemma_emitted_bounds();
            assert(it.remaining_matchups() =~= block_matchups(
                network_size as int,
                matchup_size as int,
                offset as int,
            ));
        }
        Ok(it)
    }

    /// Number of sections at the current level.
    fn calculate_sections_number(&self) -> (r: InputInt)
        requires
            valid_block(self.network_size as int, self.matchup_size as int, self.offset as int),
            self.depth == floor_log(self.network_size as int, self.matchup_size as int),
            self.level <= self.depth,
        ensures
            r == power(self.matchup_size as int, self.level as int),
    {
        proof {
            lemma_power_monotone(self.matchup_size as int, self.level as int, self.depth as int);
        }
        base_power(self.matchup_size, self.level)
    }

    /// Move on to the next level, cutting the block into `base^level`
    /// sections. `None` when the last level is done.
    fn init_level(&mut self) -> (r: Option<()>)
        requires
            old(self).wf(),
            old(self).section_group_head >= old(self).section_states@.len(),
        ensures
            final(self).wf(),
            final(self).network_size == old(self).network_size,
            final(self).matchup_size == old(self).matchup_size,
            final(self).offset == old(self).offset,
            final(self).emitted() == old(self).emitted(),
            r is Some <==> old(self).level < old(self).depth,
            r is Some ==> final(self).section_group_head < final(self).section_states@.len(),
            r is None ==> *final(self) == *old(self),
    {
        if self.level >= self.depth {
            return None;
        }
        let ghost b = self.matchup_size as int;
        let ghost p = self.depth as int;
        let ghost old_level = self.level as int;
        let ghost size = self.network_size as int;
        let ghost per_level = size / b;
        self.level = self.level + 1;
        let sections_number = self.calculate_sections_number();
        proof {
            lemma_level_geometry(b, p, self.level as int);
        }
        let section_size: InputInt = self.network_size / sections_number;
        let ghost w = section_size as int;
        let mut section_states: Vec<(InputInt, InputInt)> = Vec::new();
        let mut head: InputInt = 0;
        let mut i: InputInt = 0;
        while i < sections_number
            invariant
                i <= sections_number,
                sections_number * w == size,
                size <= u32::MAX,
                w == section_size,
                head == i * w,
                section_states@.len() == i,
                forall|j: int|
                    0 <= j < i ==> (#[trigger] section_states@[j]).0 == j * w && section_states@[j].1
                        == (j + 1) * w,
            decreases sections_number - i,
        {
            assert(i * w + w <= sections_number * w) by (nonlinear_arith)
                requires
                    i < sections_number,
                    w >= 0,
            ;
            section_states.push((head, head + section_size));
            head = head + section_size;
            i = i + 1;
            assert(head == i * w) by (nonlinear_arith)
                requires
                    head == (i - 1) * w + w,
            ;
        }
        self.section_states = section_states;
        self.section_group_head = 0;
        proof {
            assert(self.width() == w);
            let st = self.section_states@;
            assert(st[0].0 == 0 * w);
            assert(0 * w == 0) by (nonlinear_arith);
            assert(old_level * per_level + 0 * w + 0 == old_level * per_level) by (nonlinear_arith);
            if old_level == 0 {
                assert(old_level * per_level == 0) by (nonlinear_arith)
                    requires
                        old_level == 0,
                ;
            }
            let below = power(b, self.level - 1);
            assert(b <= st.len()) by (nonlinear_arith)
                requires
                    st.len() == b * below,
                    below >= 1,
                    b >= 2,
            ;
            assert forall|i: int| 0 <= i < 0 + b implies (#[trigger] st[i]).0 == i * w + (st[0].0 - 0
                * w) by {
                assert(st[i].0 == i * w);
            }
            assert(0int % b == 0);
        }
        Some(())
    }

    /// Hand out the next item of section `index`.
    fn increment_internal_section_pointer(&mut self, index: usize)
        requires
            index < old(self).section_states@.len(),
            old(self).section_states@[index as int].0 < InputInt::MAX,
        ensures
            final(self).section_states@ == old(self).section_states@.update(
                index as int,
                ((old(self).section_states@[index as int].0 + 1) as InputInt, old(
                    self,
                ).section_states@[index as int].1),
            ),
            final(self).network_size == old(self).network_size,
            final(self).matchup_size == old(self).matchup_size,
            final(self).offset == old(self).offset,
            final(self).depth == old(self).depth,
            final(self).level == old(self).level,
            final(self).section_group_head == old(self).section_group_head,
    {
        let (head, tail) = self.section_states[index];
        self.section_states[index] = (head + 1, tail);
    }

    /// Move the group head to the next group once the first section of the
    /// current group is spent.
    fn increment_group_head_if_exhausted(&mut self)
        requires
            old(self).section_group_head < old(self).section_states@.len(),
            old(self).section_group_head + old(self).matchup_size <= old(self).section_states@.len(),
            old(self).section_states@.len() <= usize::MAX,
        ensures
            ({
                let (head, tail) = old(self).section_states@[old(self).section_group_head as int];
                final(self).section_group_head == if head == tail {
                    old(self).section_group_head + old(self).matchup_size
                } else {
                    old(self).section_group_head as int
                }
            }),
            final(self).section_states@ == old(self).section_states@,
            final(self).network_size == old(self).network_size,
            final(self).matchup_size == old(self).matchup_size,
            final(self).offset == old(self).offset,
            final(self).depth == old(self).depth,
            final(self).level == old(self).level,
    {
        let (ctrlhead, ctrltail) = self.section_states[self.section_group_head];
        if ctrltail == ctrlhead {
            self.section_group_head = self.section_group_head + self.matchup_size as usize;
        }
    }

    /// A well-formed iterator has handed out between none and all of its matchups.
    pub proof fn lemma_emitted_bounds(&self)
        requires
            self.wf(),
        ensures
            0 <= self.emitted() <= self.total(),
    {
        let b = self.matchup_size as int;
        let p = self.depth as int;
        let l = self.level as int;
        let size = self.network_size as int;
        let per_level = size / b;
        assert(per_level >= 0) by (nonlinear_arith)
            requires
                size >= 1,
                b >= 2,
                per_level == size / b,
        ;
        assert(self.total() == p * per_level) by (nonlinear_arith)
            requires
                self.total() == per_level * p,
        ;
        assert(l * per_level <= p * per_level) by (nonlinear_arith)
            requires
                l <= p,
                per_level >= 0,
        ;
        if l >= 1 {
            let gh = self.section_group_head as int;
            let st = self.section_states@;
            if gh < st.len() {
                let w = self.width();
                let t = st[gh].0 - gh * w;
                lemma_level_geometry(b, p, l);
                lemma_matchup_at_state(b, p, l, self.offset as int, gh, t);
                assert(0 <= (l - 1) * per_level) by (nonlinear_arith)
                    requires
                        l >= 1,
                        per_level >= 0,
                ;
            }
        }
    }

    /// The next matchup of the subnetwork, level after level; `None` once
    /// all of them are out, and from then on.
    pub fn next(&mut self) -> (r: Option<Vec<InputInt>>)
        requires
            old(self).wf(),
        ensures
            final(self).wf(),
            final(self).block_size() == old(self).block_size(),
            final(self).block_base() == old(self).block_base(),
            final(self).block_offset() == old(self).block_offset(),
            final(self).total() == old(self).total(),
            old(self).emitted() < old(self).total() ==> {
                &&& r matches Some(m) && m@ == old(self).matchup_at(old(self).emitted())
                &&& final(self).emitted() == old(self).emitted() + 1
            },
            old(self).emitted() >= old(self).total() ==> {
                &&& r is None
                &&& final(self).emitted() == old(self).emitted()
            },
    {
        proof {
            self.lemma_emitted_bounds();
        }
        let ghost b = self.matchup_size as int;
        let ghost p = self.depth as int;
        let ghost size = self.network_size as int;
        let ghost per_level = size / b;
        let ghost offset = self.offset as int;
        if self.section_group_head >= self.section_states.len() {
            if self.init_level().is_none() {
                proof {
                    assert(self.total() == p * per_level) by (nonlinear_arith)
                        requires
                            self.total() == per_level * p,
                    ;
                    if p == 0 {
                        assert(p * per_level == 0) by (nonlinear_arith)
                            requires
                                p == 0,
                        ;
                    }
                }
                return None;
            }
        }
        let ghost pre = *self;
        let ghost l = self.level as int;
        let ghost gh = self.section_group_head as int;
        let ghost w = self.width();
        let ghost st0 = self.section_states@;
        let ghost t = st0[gh].0 - gh * w;
        proof {
            self.lemma_emitted_bounds();
            lemma_level_geometry(b, p, l);
            lemma_matchup_at_state(b, p, l, offset, gh, t);
            let below = power(b, l - 1);
            assert(st0.len() as int % b == 0) by {
                assert(st0.len() == below * b) by (nonlinear_arith)
                    requires
                        st0.len() == power(b, l),
                        power(b, l) == b * below,
                ;
                lemma_fundamental_div_mod_converse(st0.len() as int, b, below, 0);
            }
            lemma_next_multiple(gh, st0.len() as int, b);
            assert(st0.len() * w == size);
            assert(l * per_level <= p * per_level) by (nonlinear_arith)
                requires
                    l <= p,
                    per_level >= 0,
            ;
            assert(pre.total() == p * per_level) by (nonlinear_arith)
                requires
                    pre.total() == per_level * p,
            ;
            assert(pre.emitted() < pre.total());
        }
        let sections_number = self.section_states.len();
        let group_size = self.matchup_size as usize;
        let mut matchup: Vec<InputInt> = Vec::new();
        let mut j: usize = 0;
        while j < group_size
            invariant
                self.network_size == pre.network_size,
                self.matchup_size == pre.matchup_size,
                self.offset == pre.offset,
                self.depth == pre.depth,
                self.level == pre.level,
                self.section_group_head == gh,
                group_size == b,
                b >= 2,
                w >= 1,
                0 <= j <= group_size,
                gh + b <= st0.len(),
                st0.len() == sections_number,
                st0.len() * w == size,
                size <= u32::MAX,
                size + offset <= u32::MAX + 1,
                offset == self.offset,
                0 <= t < w,
                forall|i: int| gh <= i < gh + b ==> (#[trigger] st0[i]).0 == i * w + t,
                self.section_states@.len() == st0.len(),
                forall|i: int|
                    0 <= i < st0.len() && !(gh <= i < gh + j) ==> #[trigger] self.section_states@[i]
                        == st0[i],
                forall|i: int|
                    gh <= i < gh + j ==> #[trigger] self.section_states@[i].0 == st0[i].0 + 1
                        && self.section_states@[i].1 == st0[i].1,
                matchup@ == Seq::new(j as nat, |jj: int| (offset + (gh + jj) * w + t) as InputInt),
            decreases group_size - j,
        {
            let ix = self.section_group_head + j;
            proof {
                assert(self.section_states@[ix as int] == st0[ix as int]);
                assert((ix + 1) * w <= st0.len() * w) by (nonlinear_arith)
                    requires
                        ix < st0.len(),
                        w >= 1,
                ;
                assert(ix * w + t < (ix + 1) * w) by (nonlinear_arith)
                    requires
                        t < w,
                ;
            }
            let old_head = self.section_states[ix].0;
            let ghost prev = self.section_states@;
            self.increment_internal_section_pointer(ix);
            matchup.push(old_head + self.offset);
            j = j + 1;
            proof {
                assert forall|i: int| gh <= i < gh + j implies #[trigger] self.section_states@[i].0
                    == st0[i].0 + 1 && self.section_states@[i].1 == st0[i].1 by {
                    if i != ix {
                        assert(self.section_states@[i] == prev[i]);
                    } else {
                        assert(prev[i] == st0[i]);
                        assert(st0[i].0 < u32::MAX);
                        assert(self.section_states@[i] == ((prev[i].0 + 1) as InputInt, prev[i].1));
                    }
                }
                assert(matchup@ =~= Seq::new(
                    j as nat,
                    |jj: int| (offset + (gh + jj) * w + t) as InputInt,
                ));
            }
        }
        proof {
            lemma_advance_group(st0, self.section_states@, gh, b, w);
        }
        self.increment_group_head_if_exhausted();
        proof {
            assert(matchup@ =~= pre.matchup_at(pre.emitted()));
            let g2 = self.section_group_head as int;
            if t + 1 == w {
                lemma_fundamental_div_mod(gh, b);
                lemma_fundamental_div_mod(gh + b, b);
                lemma_mod_add_multiples_vanish(gh, b);
                assert((gh + b) / b == gh / b + 1) by (nonlinear_arith)
                    requires
                        gh == b * (gh / b),
                        gh + b == b * ((gh + b) / b) + (gh + b) % b,
                        (gh + b) % b == 0,
                        b >= 2,
                ;
                assert((gh / b + 1) * w == (gh / b) * w + w) by (nonlinear_arith);
                if g2 >= st0.len() {
                    assert(g2 == st0.len());
                    assert(st0.len() as int / b == power(b, l - 1)) by (nonlinear_arith)
                        requires
                            st0.len() == b * power(b, l - 1),
                            b >= 2,
                    ;
                    assert((l - 1) * per_level + per_level == l * per_level) by (nonlinear_arith);
                }
            }
        }
        Some(matchup)
    }
}

/// A multiple of `b` below another is at least `b` below it.
pub proof fn lemma_next_multiple(x: int, n: int, b: int)
    requires
        0 <= x < n,
        b > 0,
        x % b == 0,
        n % b == 0,
    ensures
        x + b <= n,
{
    lemma_fundamental_div_mod(x, b);
    lemma_fundamental_div_mod(n, b);
    let qx = x / b;
    let qn = n / b;
    assert(x + b <= n) by (nonlinear_arith)
        requires
            x == b * qx,
            n == b * qn,
            x < n,
            b > 0,
    ;
}

/// One matchup taken from the group at `gh`: every section of the group
/// hands out one item, and the group head moves on once the group is spent.
pub proof fn lemma_advance_group(
    st0: Seq<(InputInt, InputInt)>,
    st1: Seq<(InputInt, InputInt)>,
    gh: int,
    b: int,
    w: int,
)
    requires
        b >= 2,
        w >= 1,
        sections_at(st0, gh, b, w),
        gh + b <= st0.len(),
        gh % b == 0,
        st0.len() as int % b == 0,
        st1.len() == st0.len(),
        forall|i: int|
            0 <= i < st0.len() && !(gh <= i < gh + b) ==> #[trigger] st1[i] == st0[i],
        forall|i: int|
            gh <= i < gh + b ==> #[trigger] st1[i].0 == st0[i].0 + 1 && st1[i].1 == st0[i].1,
    ensures
        ({
            let t = st0[gh].0 - gh * w;
            &&& st1[gh].1 == st1[gh].0 <==> t + 1 == w
            &&& t + 1 < w ==> sections_at(st1, gh, b, w) && st1[gh].0 - gh * w == t + 1
            &&& t + 1 == w ==> {
                &&& sections_at(st1, gh + b, b, w)
                &&& gh + b < st1.len() ==> st1[gh + b].0 - (gh + b) * w == 0
            }
        }),
{
    let t = st0[gh].0 - gh * w;
    assert forall|i: int| gh <= i < gh + b implies #[trigger] st1[i].0 == i * w + t + 1 && st1[i].1 == (
    i + 1) * w by {
        assert(st0[i].0 == i * w + t);
        assert(i * w + t < (i + 1) * w) by (nonlinear_arith)
            requires
                t < w,
        ;
    }
    assert((gh + 1) * w == gh * w + w) by (nonlinear_arith);
    if t + 1 == w {
        assert forall|i: int| 0 <= i < gh + b implies (#[trigger] st1[i]).0 == (i + 1) * w by {
            if i >= gh {
                assert((i + 1) * w == i * w + w) by (nonlinear_arith);
            }
        }
        if gh + b < st1.len() {
            let g = gh + b;
            lemma_mod_add_multiples_vanish(gh, b);
            lemma_next_multiple(g, st1.len() as int, b);
            assert(st1[g] == st0[g]);
            assert(st1[g].0 - g * w == 0);
            assert forall|i: int| g <= i < g + b implies (#[trigger] st1[i]).0 == i * w + (st1[g].0 - g
                * w) by {
                if i < st1.len() {
                    assert(st1[i] == st0[i]);
                }
            }
        }
        assert forall|i: int| gh + b + b <= i < st1.len() implies (#[trigger] st1[i]).0 == i * w by {
            assert(st1[i] == st0[i]);
        }
        assert(sections_at(st1, gh + b, b, w));
    } else if t + 1 < w {
        assert(sections_at(st1, gh, b, w));
    }
    assert(st1[gh].1 == st1[gh].0 <==> t + 1 == w);
}

/// The shape of level `l` of a block of `b^p` items.
pub proof fn lemma_level_geometry(b: int, p: int, l: int)
    requires
        b >= 2,
        1 <= l <= p,
    ensures
        power(b, p) / power(b, l) == power(b, p - l),
        power(b, p) / b == power(b, l - 1) * power(b, p - l),
        power(b, l) == b * power(b, l - 1),
        power(b, l) * power(b, p - l) == power(b, p),
        power(b, p - l) >= 1,
        power(b, l - 1) >= 1,
{
    lemma_pow_adds(b, l as nat, (p - l) as nat);
    lemma_pow_adds(b, (l - 1) as nat, (p - l) as nat);
    lemma_pow_step(b, l - 1);
    lemma_pow_step(b, p - 1);
    lemma_power_monotone(b, 0, p - l);
    lemma_power_monotone(b, 0, l - 1);
    lemma_power_monotone(b, 0, l);
    lemma_div_by_multiple(power(b, p - l), power(b, l));
    vstd::arithmetic::mul::lemma_mul_is_commutative(power(b, l), power(b, p - l));
    vstd::arithmetic::mul::lemma_mul_is_commutative(b, power(b, p - 1));
    lemma_div_by_multiple(power(b, p - 1), b);
}

/// The matchup that a level at rest hands out next, where `t` items of each
/// section of group head `gh` are gone.
pub proof fn lemma_matchup_at_state(b: int, p: int, l: int, offset: int, gh: int, t: int)
    requires
        b >= 2,
        1 <= l <= p,
        0 <= gh < power(b, l),
        gh % b == 0,
        0 <= t < power(b, p - l),
    ensures
        ({
            let w = power(b, p - l);
            let per_level = power(b, p) / b;
            let k = (l - 1) * per_level + (gh / b) * w + t;
            &&& (l - 1) * per_level <= k < l * per_level
            &&& subnetwork_matchup(power(b, p), b, offset, k) == Seq::new(
                b as nat,
                |j: int| (offset + (gh + j) * w + t) as InputInt,
            )
        }),
{
    lemma_level_geometry(b, p, l);
    let w = power(b, p - l);
    let bl1 = power(b, l - 1);
    let per_level = power(b, p) / b;
    let g = gh / b;
    lemma_fundamental_div_mod(gh, b);
    assert(g < bl1 && g >= 0) by (nonlinear_arith)
        requires
            0 <= gh < b * bl1,
            gh == b * g,
            b >= 2,
    ;
    let m = g * w + t;
    assert(g * w <= (bl1 - 1) * w) by (nonlinear_arith)
        requires
            0 <= g < bl1,
            w >= 1,
    ;
    assert(0 <= m < bl1 * w) by (nonlinear_arith)
        requires
            m == g * w + t,
            g * w <= (bl1 - 1) * w,
            0 <= g < bl1,
            0 <= t < w,
    ;
    let k = (l - 1) * per_level + m;
    assert(per_level == bl1 * w);
    lemma_fundamental_div_mod_converse(k, per_level, l - 1, m);
    lemma_fundamental_div_mod_converse(m, w, g, t);
    assert((l - 1) * per_level + per_level == l * per_level) by (nonlinear_arith);
    assert(g * b == gh) by (nonlinear_arith)
        requires
            gh == b * g,
    ;
    assert(subnetwork_matchup(power(b, p), b, offset, k) =~= Seq::new(
        b as nat,
        |j: int| (offset + (gh + j) * w + t) as InputInt,
    ));
}

/// Where the `k`-th matchup of a block stands: its level `l`, the group `g`
/// of sections and the item `t` of each section that it takes.
pub proof fn lemma_matchup_coordinates(size: int, b: int, offset: int, k: int)
    requires
        valid_block(size, b, offset),
        0 <= k < matchups_number(size, b),
    ensures
        ({
            let p = floor_log(size, b);
            let per_level = size / b;
            let l = k / per_level + 1;
            let m = k % per_level;
            let w = size / power(b, l);
            &&& 1 <= l <= p
            &&& per_level == power(b, l - 1) * w
            &&& w == power(b, p - l)
            &&& w >= 1
            &&& 0 <= m / w < power(b, l - 1)
            &&& 0 <= m % w < w
            &&& power(b, l) == b * power(b, l - 1)
            &&& power(b, l) * w == size
            &&& k == (l - 1) * per_level + (m / w) * w + m % w
        }),
{
    let p = floor_log(size, b);
    let per_level = size / b;
    assert(p >= 1) by {
        if p <= 0 {
            lemma_floor_log_bounds(size, b);
            assert(matchups_number(size, b) == per_level * p);
            assert(per_level * p <= 0) by (nonlinear_arith)
                requires
                    p <= 0,
                    per_level >= 0,
            ;
        }
    }
    lemma_level_geometry(b, p, 1);
    vstd::arithmetic::power::lemma_pow0(b);
    assert(per_level >= 1) by (nonlinear_arith)
        requires
            per_level == 1 * power(b, p - 1),
            power(b, p - 1) >= 1,
    ;
    lemma_fundamental_div_mod(k, per_level);
    let q = k / per_level;
    let m = k % per_level;
    assert(0 <= q < p) by (nonlinear_arith)
        requires
            k == per_level * q + m,
            0 <= m < per_level,
            0 <= k < per_level * p,
            per_level >= 1,
    ;
    let l = q + 1;
    lemma_level_geometry(b, p, l);
    let w = size / power(b, l);
    lemma_fundamental_div_mod(m, w);
    let g = m / w;
    let t = m % w;
    let bl1 = power(b, l - 1);
    assert(0 <= g < bl1) by (nonlinear_arith)
        requires
            m == w * g + t,
            0 <= t < w,
            0 <= m < bl1 * w,
            w >= 1,
    ;
    assert(k == (l - 1) * per_level + g * w + t) by (nonlinear_arith)
        requires
            k == per_level * q + m,
            m == w * g + t,
            l == q + 1,
    ;
}

/// Every matchup of a subnetwork has exactly `base` items.
pub proof fn lemma_subnetwork_matchup_size(size: int, base: int, offset: int, k: int)
    requires
        base >= 2,
    ensures
        subnetwork_matchup(size, base, offset, k).len() == base,
{
}

/// Every item of a matchup of a block lies in the block.
pub proof fn lemma_subnetwork_matchup_bounds(size: int, base: int, offset: int, k: int)
    requires
        valid_block(size, base, offset),
        0 <= k < matchups_number(size, base),
    ensures
        forall|j: int|
            0 <= j < base ==> offset <= #[trigger] subnetwork_matchup(size, base, offset, k)[j] < offset
                + size,
        forall|j: int|
            0 <= j < base ==> #[trigger] subnetwork_matchup(size, base, offset, k)[j] == matchup_item(
                size,
                base,
                offset,
                k,
                j,
            ),
{
    lemma_matchup_coordinates(size, base, offset, k);
    let per_level = size / base;
    let l = k / per_level + 1;
    let m = k % per_level;
    let w = size / power(base, l);
    let g = m / w;
    let t = m % w;
    let bl1 = power(base, l - 1);
    let bl = power(base, l);
    assert forall|j: int| 0 <= j < base implies offset <= #[trigger] matchup_item(
        size,
        base,
        offset,
        k,
        j,
    ) < offset + size by {
        assert(0 <= (g * base + j) * w + t < size) by (nonlinear_arith)
            requires
                0 <= g < bl1,
                0 <= j < base,
                0 <= t < w,
                bl == base * bl1,
                bl * w == size,
        ;
    }
    assert forall|j: int| 0 <= j < base implies #[trigger] subnetwork_matchup(size, base, offset, k)[j]
        == matchup_item(size, base, offset, k, j) by {
        let x = matchup_item(size, base, offset, k, j);
        assert(0 <= x <= u32::MAX);
        assert(subnetwork_matchup(size, base, offset, k)[j] == x as InputInt);
    }
}

/// The items of the matchups of a block determine their level coordinates:
/// two matchups of one level with a common item are the same matchup.
proof fn lemma_item_determines_matchup(size: int, base: int, offset: int, k1: int, k2: int, j1: int, j2: int)
    requires
        valid_block(size, base, offset),
        0 <= k1 < matchups_number(size, base),
        0 <= k2 < matchups_number(size, base),
        k1 / (size / base) == k2 / (size / base),
        0 <= j1 < base,
        0 <= j2 < base,
        subnetwork_matchup(size, base, offset, k1)[j1] == subnetwork_matchup(size, base, offset, k2)[j2],
    ensures
        k1 == k2,
        j1 == j2,
{
    lemma_subnetwork_matchup_bounds(size, base, offset, k1);
    lemma_subnetwork_matchup_bounds(size, base, offset, k2);
    lemma_matchup_coordinates(size, base, offset, k1);
    lemma_matchup_coordinates(size, base, offset, k2);
    let per_level = size / base;
    let l = k1 / per_level + 1;
    let w = size / power(base, l);
    let m1 = k1 % per_level;
    let m2 = k2 % per_level;
    let g1 = m1 / w;
    let g2 = m2 / w;
    let t1 = m1 % w;
    let t2 = m2 % w;
    let s1 = g1 * base + j1;
    let s2 = g2 * base + j2;
    assert(matchup_item(size, base, offset, k1, j1) == matchup_item(size, base, offset, k2, j2));
    assert(s1 * w + t1 == s2 * w + t2);
    lemma_fundamental_div_mod_converse(s1 * w + t1, w, s1, t1);
    lemma_fundamental_div_mod_converse(s2 * w + t2, w, s2, t2);
    lemma_fundamental_div_mod_converse(s1, base, g1, j1);
    lemma_fundamental_div_mod_converse(s2, base, g2, j2);
}

/// No matchup of a subnetwork holds an item twice.
pub proof fn lemma_subnetwork_matchup_distinct(size: int, base: int, offset: int, k: int)
    requires
        valid_block(size, base, offset),
        0 <= k < matchups_number(size, base),
    ensures
        subnetwork_matchup(size, base, offset, k).no_duplicates(),
{
    let m = subnetwork_matchup(size, base, offset, k);
    assert forall|x: int, y: int| 0 <= x < m.len() && 0 <= y < m.len() && x != y implies m[x] != m[y] by {
        if m[x] == m[y] {
            lemma_item_determines_matchup(size, base, offset, k, k, x, y);
        }
    }
}

/// Every level of a subnetwork covers its whole block: each item of the
/// block is in one of the matchups of the level.
pub proof fn lemma_level_covers_block(size: int, base: int, offset: int, l: int, x: int)
    requires
        valid_block(size, base, offset),
        1 <= l <= floor_log(size, base),
        offset <= x < offset + size,
    ensures
        exists|k: int, j: int|
            (l - 1) * (size / base) <= k < l * (size / base) && 0 <= j < base
                && #[trigger] subnetwork_matchup(size, base, offset, k)[j] == x,
{
    let p = floor_log(size, base);
    lemma_level_geometry(base, p, l);
    let w = power(base, p - l);
    let bl = power(base, l);
    let v = x - offset;
    lemma_fundamental_div_mod(v, w);
    let s = v / w;
    let t = v % w;
    assert(0 <= s < bl) by (nonlinear_arith)
        requires
            v == w * s + t,
            0 <= t < w,
            0 <= v < bl * w,
            w >= 1,
    ;
    lemma_fundamental_div_mod(s, base);
    let g = s / base;
    let j = s % base;
    let gh = g * base;
    assert(0 <= gh <= s && gh % base == 0) by {
        assert(gh == base * g) by (nonlinear_arith)
            requires
                gh == g * base,
        ;
        assert(g >= 0) by (nonlinear_arith)
            requires
                s == base * g + j,
                0 <= j < base,
                s >= 0,
        ;
        assert(gh >= 0) by (nonlinear_arith)
            requires
                g >= 0,
                base >= 2,
                gh == g * base,
        ;
        vstd::arithmetic::div_mod::lemma_mod_multiples_basic(g, base);
    }
    lemma_matchup_at_state(base, p, l, offset, gh, t);
    vstd::arithmetic::div_mod::lemma_div_by_multiple(g, base);
    let k = (l - 1) * (size / base) + (gh / base) * w + t;
    assert(offset + (gh + j) * w + t == x) by (nonlinear_arith)
        requires
            gh + j == s,
            v == w * s + t,
            x == offset + v,
    ;
    assert(subnetwork_matchup(size, base, offset, k)[j] == x);
}

/// Within one level of a subnetwork, distinct matchups share no item.
pub proof fn lemma_same_level_disjoint(size: int, base: int, offset: int, k1: int, k2: int)
    requires
        valid_block(size, base, offset),
        0 <= k1 < matchups_number(size, base),
        0 <= k2 < matchups_number(size, base),
        k1 != k2,
        k1 / (size / base) == k2 / (size / base),
    ensures
        forall|j1: int, j2: int|
            0 <= j1 < base && 0 <= j2 < base ==> #[trigger] subnetwork_matchup(size, base, offset, k1)[j1]
                != #[trigger] subnetwork_matchup(size, base, offset, k2)[j2],
{
    assert forall|j1: int, j2: int| 0 <= j1 < base && 0 <= j2 < base implies #[trigger] subnetwork_matchup(
        size,
        base,
        offset,
        k1,
    )[j1] != #[trigger] subnetwork_matchup(size, base, offset, k2)[j2] by {
        if subnetwork_matchup(size, base, offset, k1)[j1] == subnetwork_matchup(size, base, offset, k2)[j2] {
            lemma_item_determines_matchup(size, base, offset, k1, k2, j1, j2);
        }
    }
}

/// A subnetwork never hands out the same matchup twice.
pub proof fn lemma_matchups_distinct(size: int, base: int, offset: int, k1: int, k2: int)
    requires
        valid_block(size, base, offset),
        0 <= k1 < matchups_number(size, base),
        0 <= k2 < matchups_number(size, base),
        k1 != k2,
    ensures
        subnetwork_matchup(size, base, offset, k1) != subnetwork_matchup(size, base, offset, k2),
{
    let per_level = size / base;
    lemma_matchup_coordinates(size, base, offset, k1);
    lemma_matchup_coordinates(size, base, offset, k2);
    lemma_subnetwork_matchup_bounds(size, base, offset, k1);
    lemma_subnetwork_matchup_bounds(size, base, offset, k2);
    let m1 = subnetwork_matchup(size, base, offset, k1);
    let m2 = subnetwork_matchup(size, base, offset, k2);
    if k1 / per_level == k2 / per_level {
        lemma_same_level_disjoint(size, base, offset, k1, k2);
        assert(m1[0] != m2[0]);
    } else {
        let p = floor_log(size, base);
        let l1 = k1 / per_level + 1;
        let l2 = k2 / per_level + 1;
        let w1 = size / power(base, l1);
        let w2 = size / power(base, l2);
        if l1 < l2 {
            lemma_power_strictly_monotone(base, p - l2, p - l1);
        } else {
            lemma_power_strictly_monotone(base, p - l1, p - l2);
        }
        let a1 = k1 % per_level;
        let a2 = k2 % per_level;
        let x1 = (a1 / w1) * base;
        let x2 = (a2 / w2) * base;
        assert((x1 + 1) * w1 == (x1 + 0) * w1 + w1) by (nonlinear_arith);
        assert((x2 + 1) * w2 == (x2 + 0) * w2 + w2) by (nonlinear_arith);
        assert(m1[1] == matchup_item(size, base, offset, k1, 1));
        assert(m1[0] == matchup_item(size, base, offset, k1, 0));
        assert(m2[1] == matchup_item(size, base, offset, k2, 1));
        assert(m2[0] == matchup_item(size, base, offset, k2, 0));
        assert(m1[1] - m1[0] == w1);
        assert(m2[1] - m2[0] == w2);
    }
}

/// A subnetwork iterator hands out, in all, as many matchups as the closed
/// form counts for its block.
pub proof fn lemma_iterator_count(it: SubnetworkMatchupIterator)
    requires
        it.wf(),
    ensures
        it.total() == matchups_number(it.block_size(), it.block_base()),
{
}

} // verus!
