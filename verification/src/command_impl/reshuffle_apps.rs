use vstd::prelude::*;

use crate::board_settings::BoardSettings;

verus! {

broadcast use vstd::seq_lib::group_to_multiset_ensures;

/// An application that runs only where it was linked: at one of the
/// `(flash address, RAM address)` pairs it was built for.
pub struct FixedApp {
    pub installed: bool,
    pub idx: Option<usize>,
    pub compatible_addresses: Vec<Option<(u64, u64)>>,
    pub size: u64,
}

/// An application that runs at any flash address.
pub struct FlexibleApp {
    pub installed: bool,
    pub idx: Option<usize>,
    pub size: u64,
}

/// An application to be laid out in flash.
pub enum TockApp {
    Fixed(FixedApp),
    Flexible(FlexibleApp),
}

/// One region of a flash layout: the application at position `idx` of the
/// list laid out, or padding when `idx` is `None`.
#[derive(Debug, Clone, Copy, PartialEq, Eq)]
pub struct Index {
    pub installed: bool,
    pub idx: Option<usize>,
    pub ram_address: Option<u64>,
    pub address: u64,
    pub size: u64,
}

impl TockApp {
    /// The size of the application.
    pub open spec fn spec_size(&self) -> u64 {
        match self {
            TockApp::Fixed(f) => f.size,
            TockApp::Flexible(f) => f.size,
        }
    }
}

/// The region `e` shares a byte with `[address, address + size)`.
pub open spec fn overlaps(e: Index, address: int, size: int) -> bool {
    address < e.address + e.size && e.address < address + size
}

/// `[address, address + size)` lies at or after `start`, within the address
/// space, and shares no byte with a region of `placed`.
pub open spec fn fits(start: u64, placed: Seq<Index>, address: int, size: int) -> bool {
    &&& start <= address
    &&& address + size <= u64::MAX
    &&& forall|k: int| 0 <= k < placed.len() ==> !overlaps(#[trigger] placed[k], address, size)
}

/// The first of `slots` where an application of `size` bytes fits.
pub open spec fn first_fixed_slot(
    start: u64,
    placed: Seq<Index>,
    slots: Seq<Option<(u64, u64)>>,
    size: u64,
) -> Option<(u64, u64)>
    decreases slots.len(),
{
    if slots.len() == 0 {
        None
    } else {
        match slots[0] {
            Some(slot) => if fits(start, placed, slot.0 as int, size as int) {
                Some(slot)
            } else {
                first_fixed_slot(start, placed, slots.drop_first(), size)
            },
            None => first_fixed_slot(start, placed, slots.drop_first(), size),
        }
    }
}

/// The fixed applications among the first `n` of `apps`, each at the first of
/// its addresses that is free of those placed before it.
pub open spec fn place_fixed(start: u64, apps: Seq<TockApp>, n: int) -> Option<Seq<Index>>
    decreases n,
{
    if n <= 0 {
        Some(Seq::empty())
    } else {
        match place_fixed(start, apps, n - 1) {
            None => None,
            Some(placed) => match apps[n - 1] {
                TockApp::Fixed(f) => match first_fixed_slot(
                    start,
                    placed,
                    f.compatible_addresses@,
                    f.size,
                ) {
                    None => None,
                    Some(slot) => Some(
                        placed.push(
                            Index {
                                installed: f.installed,
                                idx: Some((n - 1) as usize),
                                ram_address: Some(slot.1),
                                address: slot.0,
                                size: f.size,
                            },
                        ),
                    ),
                },
                TockApp::Flexible(_) => Some(placed),
            },
        }
    }
}

/// Where a flexible application may go: at `start`, or right after a region
/// of `placed`.
pub open spec fn candidates(start: u64, placed: Seq<Index>) -> Seq<int> {
    seq![start as int] + placed.map_values(|e: Index| e.address + e.size)
}

/// The lowest of `cands` where `size` bytes fit.
pub open spec fn lowest_fit(start: u64, placed: Seq<Index>, cands: Seq<int>, size: int) -> Option<int>
    decreases cands.len(),
{
    if cands.len() == 0 {
        None
    } else {
        let rest = lowest_fit(start, placed, cands.drop_last(), size);
        let c = cands.last();
        if fits(start, placed, c, size) {
            match rest {
                Some(r) => if r <= c {
                    Some(r)
                } else {
                    Some(c)
                },
                None => Some(c),
            }
        } else {
            rest
        }
    }
}

/// `fixed` with the flexible applications among the first `n` of `apps`
/// added, each at the lowest place where it fits.
pub open spec fn place_flexible(start: u64, apps: Seq<TockApp>, n: int, fixed: Seq<Index>) -> Option<
    Seq<Index>,
>
    decreases n,
{
    if n <= 0 {
        Some(fixed)
    } else {
        match place_flexible(start, apps, n - 1, fixed) {
            None => None,
            Some(placed) => match apps[n - 1] {
                TockApp::Flexible(f) => match lowest_fit(
                    start,
                    placed,
                    candidates(start, placed),
                    f.size as int,
                ) {
                    None => None,
                    Some(a) => Some(
                        placed.push(
                            Index {
                                installed: f.installed,
                                idx: Some((n - 1) as usize),
                                ram_address: None,
                                address: a as u64,
                                size: f.size,
                            },
                        ),
                    ),
                },
                TockApp::Fixed(_) => Some(placed),
            },
        }
    }
}

/// Where the applications go: first the fixed ones, in order, each at the
/// first of its addresses that is still free; then the flexible ones, in
/// order, each at the lowest free place from the start address on.
pub open spec fn placement(start: u64, apps: Seq<TockApp>) -> Option<Seq<Index>> {
    match place_fixed(start, apps, apps.len() as int) {
        None => None,
        Some(fixed) => place_flexible(start, apps, apps.len() as int, fixed),
    }
}

/// The regions of `s` start at increasing addresses.
pub open spec fn sorted_by_address(s: Seq<Index>) -> bool {
    forall|i: int, j: int| 0 <= i < j < s.len() ==> #[trigger] s[i].address < #[trigger] s[j].address
}

/// Padding from `address` for `size` bytes.
pub open spec fn padding(address: int, size: int) -> Index {
    Index { installed: false, idx: None, ram_address: None, address: address as u64, size: size as u64 }
}

/// The regions of `s` (sorted by address) from `cursor` on, with padding in
/// each gap before a region.
pub open spec fn pad_from(cursor: int, s: Seq<Index>) -> Seq<Index>
    decreases s.len(),
{
    if s.len() == 0 {
        Seq::empty()
    } else {
        let e = s[0];
        let rest = seq![e] + pad_from(e.address + e.size, s.drop_first());
        if e.address > cursor {
            seq![padding(cursor, e.address - cursor)] + rest
        } else {
            rest
        }
    }
}

/// Every application has a size.
pub open spec fn apps_sized(apps: Seq<TockApp>) -> bool {
    forall|i: int| 0 <= i < apps.len() ==> #[trigger] apps[i].spec_size() > 0
}

/// Whether `[address, address + size)` fits among `placed` from `start` on.
fn fits_at(start: u64, placed: &Vec<Index>, address: u64, size: u64) -> (r: bool)
    ensures
        r == fits(start, placed@, address as int, size as int),
{
    if address < start || address > u64::MAX - size {
        return false;
    }
    let mut k: usize = 0;
    while k < placed.len()
        invariant
            k <= placed.len(),
            forall|j: int| 0 <= j < k ==> !overlaps(#[trigger] placed@[j], address as int, size as int),
        decreases placed.len() - k,
    {
        let e = placed[k];
        if (address as u128) < (e.address as u128) + (e.size as u128) && (e.address as u128) < (
        address as u128) + (size as u128) {
            return false;
        }
        k = k + 1;
    }
    true
}

/// The first of `slots` where `size` bytes fit among `placed`.
fn find_fixed_slot(start: u64, placed: &Vec<Index>, slots: &Vec<Option<(u64, u64)>>, size: u64) -> (r:
    Option<(u64, u64)>)
    ensures
        r == first_fixed_slot(start, placed@, slots@, size),
{
    let mut j: usize = 0;
    assert(slots@.skip(0) =~= slots@);
    while j < slots.len()
        invariant
            j <= slots.len(),
            first_fixed_slot(start, placed@, slots@.skip(j as int), size) == first_fixed_slot(
                start,
                placed@,
                slots@,
                size,
            ),
        decreases slots.len() - j,
    {
        assert(slots@.skip(j as int).drop_first() =~= slots@.skip(j + 1));
        assert(slots@.skip(j as int)[0] == slots@[j as int]);
        if let Some(slot) = slots[j] {
            if fits_at(start, placed, slot.0, size) {
                return Some(slot);
            }
        }
        j = j + 1;
    }
    assert(slots@.skip(j as int) =~= Seq::<Option<(u64, u64)>>::empty());
    None
}

/// The lowest place from `start` on, among the candidates, where `size` bytes
/// fit among `placed`.
fn find_lowest_fit(start: u64, placed: &Vec<Index>, size: u64) -> (r: Option<u64>)
    ensures
        r matches Some(a) ==> lowest_fit(start, placed@, candidates(start, placed@), size as int)
            == Some(a as int),
        r is None <==> lowest_fit(start, placed@, candidates(start, placed@), size as int) is None,
{
    let ghost cands = candidates(start, placed@);
    assert(cands.take(1).drop_last() =~= Seq::<int>::empty());
    assert(cands.take(1).last() == start as int);
    assert(lowest_fit(start, placed@, Seq::<int>::empty(), size as int) is None);
    let mut best: Option<u64> = if fits_at(start, placed, start, size) {
        Some(start)
    } else {
        None
    };
    let mut k: usize = 0;
    while k < placed.len()
        invariant
            k <= placed.len(),
            cands == candidates(start, placed@),
            cands.len() == placed.len() + 1,
            best matches Some(b) ==> lowest_fit(start, placed@, cands.take(k + 1), size as int)
                == Some(b as int),
            best is None <==> lowest_fit(start, placed@, cands.take(k + 1), size as int) is None,
        decreases placed.len() - k,
    {
        assert(cands.take(k + 2).drop_last() =~= cands.take(k + 1));
        assert(cands.take(k + 2).last() == cands[k + 1]);
        let e = placed[k];
        assert(cands[k + 1] == e.address + e.size);
        if e.address <= u64::MAX - e.size {
            let c: u64 = e.address + e.size;
            if fits_at(start, placed, c, size) {
                best = match best {
                    Some(b) => if b <= c {
                        Some(b)
                    } else {
                        Some(c)
                    },
                    None => Some(c),
                };
            }
        }
        k = k + 1;
    }
    assert(cands.take(cands.len() as int) =~= cands);
    best
}

/// Once a fixed application finds no place, the placement fails.
proof fn lemma_place_fixed_stays_none(start: u64, apps: Seq<TockApp>, k: int, n: int)
    requires
        0 <= k <= n,
        place_fixed(start, apps, k) is None,
    ensures
        place_fixed(start, apps, n) is None,
    decreases n - k,
{
    if k < n {
        lemma_place_fixed_stays_none(start, apps, k, n - 1);
    }
}

/// Once a flexible application finds no place, the placement fails.
proof fn lemma_place_flexible_stays_none(
    start: u64,
    apps: Seq<TockApp>,
    k: int,
    n: int,
    fixed: Seq<Index>,
)
    requires
        0 <= k <= n,
        place_flexible(start, apps, k, fixed) is None,
    ensures
        place_flexible(start, apps, n, fixed) is None,
    decreases n - k,
{
    if k < n {
        lemma_place_flexible_stays_none(start, apps, k, n - 1, fixed);
    }
}

/// Places the applications as [`placement`] says.
fn place_apps(start: u64, apps: &Vec<TockApp>) -> (r: Option<Vec<Index>>)
    ensures
        r is None <==> placement(start, apps@) is None,
        r matches Some(p) ==> placement(start, apps@) == Some(p@),
{
    let mut placed: Vec<Index> = Vec::new();
    let mut i: usize = 0;
    while i < apps.len()
        invariant
            i <= apps.len(),
            place_fixed(start, apps@, i as int) == Some(placed@),
        decreases apps.len() - i,
    {
        match &apps[i] {
            TockApp::Fixed(f) => match find_fixed_slot(start, &placed, &f.compatible_addresses, f.size) {
                Some(slot) => {
                    placed.push(
                        Index {
                            installed: f.installed,
                            idx: Some(i),
                            ram_address: Some(slot.1),
                            address: slot.0,
                            size: f.size,
                        },
                    );
                },
                None => {
                    proof {
                        lemma_place_fixed_stays_none(start, apps@, i + 1, apps.len() as int);
                    }
                    return None;
                },
            },
            TockApp::Flexible(_) => {},
        }
        i = i + 1;
    }
    let ghost fixed = placed@;
    let mut i: usize = 0;
    while i < apps.len()
        invariant
            i <= apps.len(),
            place_fixed(start, apps@, apps.len() as int) == Some(fixed),
            place_flexible(start, apps@, i as int, fixed) == Some(placed@),
        decreases apps.len() - i,
    {
        match &apps[i] {
            TockApp::Flexible(f) => match find_lowest_fit(start, &placed, f.size) {
                Some(a) => {
                    placed.push(
                        Index {
                            installed: f.installed,
                            idx: Some(i),
                            ram_address: None,
                            address: a,
                            size: f.size,
                        },
                    );
                },
                None => {
                    proof {
                        lemma_place_flexible_stays_none(
                            start,
                            apps@,
                            i + 1,
                            apps.len() as int,
                            fixed,
                        );
                    }
                    return None;
                },
            },
            TockApp::Fixed(_) => {},
        }
        i = i + 1;
    }
    Some(placed)
}

/// The regions of `placed` lie from `start` on, within the address space,
/// have a size, and share no byte.
pub open spec fn well_placed(start: u64, placed: Seq<Index>) -> bool {
    &&& forall|k: int|
        0 <= k < placed.len() ==> {
            &&& start <= #[trigger] placed[k].address
            &&& placed[k].address + placed[k].size <= u64::MAX
            &&& placed[k].size > 0
        }
    &&& forall|i: int, j: int|
        0 <= i < j < placed.len() ==> !overlaps(
            #[trigger] placed[i],
            #[trigger] placed[j].address as int,
            placed[j].size as int,
        )
}

/// The regions of `s` lie from `start` on, within the address space, have a
/// size, and each ends at or before the next begins.
pub open spec fn ordered_regions(start: u64, s: Seq<Index>) -> bool {
    &&& forall|k: int|
        0 <= k < s.len() ==> {
            &&& start <= #[trigger] s[k].address
            &&& s[k].address + s[k].size <= u64::MAX
            &&& s[k].size > 0
        }
    &&& forall|i: int, j: int|
        0 <= i < j < s.len() ==> #[trigger] s[i].address + s[i].size <= #[trigger] s[j].address
}

proof fn lemma_first_fixed_slot_fits(
    start: u64,
    placed: Seq<Index>,
    slots: Seq<Option<(u64, u64)>>,
    size: u64,
)
    ensures
        first_fixed_slot(start, placed, slots, size) matches Some(slot) ==> fits(
            start,
            placed,
            slot.0 as int,
            size as int,
        ),
        first_fixed_slot(start, placed, slots, size) matches Some(slot) ==> slots.contains(
            Some(slot),
        ),
    decreases slots.len(),
{
    if slots.len() > 0 {
        lemma_first_fixed_slot_fits(start, placed, slots.drop_first(), size);
        if let Some(slot) = first_fixed_slot(start, placed, slots.drop_first(), size) {
            if slots.drop_first().contains(Some(slot)) {
                let k = choose|k: int| 0 <= k < slots.drop_first().len() && slots.drop_first()[k]
                    == Some(slot);
                assert(slots[k + 1] == Some(slot));
            }
        }
        if let Some(slot) = slots[0] {
            assert(slots[0] == Some(slot));
        }
    }
}

proof fn lemma_lowest_fit_fits(start: u64, placed: Seq<Index>, cands: Seq<int>, size: int)
    ensures
        lowest_fit(start, placed, cands, size) matches Some(a) ==> fits(start, placed, a, size),
    decreases cands.len(),
{
    if cands.len() > 0 {
        lemma_lowest_fit_fits(start, placed, cands.drop_last(), size);
    }
}

proof fn lemma_push_well_placed(start: u64, placed: Seq<Index>, e: Index)
    requires
        well_placed(start, placed),
        fits(start, placed, e.address as int, e.size as int),
        e.size > 0,
    ensures
        well_placed(start, placed.push(e)),
{
    let q = placed.push(e);
    assert forall|i: int, j: int| 0 <= i < j < q.len() implies !overlaps(
        #[trigger] q[i],
        #[trigger] q[j].address as int,
        q[j].size as int,
    ) by {
        if j < placed.len() {
            assert(q[i] == placed[i] && q[j] == placed[j]);
        } else {
            assert(q[i] == placed[i] && q[j] == e);
        }
    }
}

/// `e` lies at the lowest free place among `prior`: it fits there, it starts
/// at `start` or at the end of a region of `prior`, and neither `start` nor
/// the end of any region of `prior` below it admits a region of its size.
pub open spec fn lowest_free_place(start: u64, prior: Seq<Index>, e: Index) -> bool {
    &&& fits(start, prior, e.address as int, e.size as int)
    &&& e.address == start || exists|j: int|
        0 <= j < prior.len() && e.address == #[trigger] prior[j].address + prior[j].size
    &&& start < e.address ==> !fits(start, prior, start as int, e.size as int)
    &&& forall|j: int|
        0 <= j < prior.len() && #[trigger] prior[j].address + prior[j].size < e.address ==> !fits(
            start,
            prior,
            prior[j].address + prior[j].size,
            e.size as int,
        )
}

/// What [`lowest_fit`] picks fits, is one of the candidates, and lies at or
/// below every candidate that fits; when it picks nothing, no candidate fits.
proof fn lemma_lowest_fit_is_lowest(start: u64, placed: Seq<Index>, cands: Seq<int>, size: int)
    ensures
        lowest_fit(start, placed, cands, size) matches Some(a) ==> {
            &&& fits(start, placed, a, size)
            &&& cands.contains(a)
            &&& forall|i: int|
                0 <= i < cands.len() && fits(start, placed, #[trigger] cands[i], size) ==> a
                    <= cands[i]
        },
        lowest_fit(start, placed, cands, size) is None ==> forall|i: int|
            0 <= i < cands.len() ==> !fits(start, placed, #[trigger] cands[i], size),
    decreases cands.len(),
{
    if cands.len() > 0 {
        let init = cands.drop_last();
        lemma_lowest_fit_is_lowest(start, placed, init, size);
        let c = cands.last();
        let last = cands.len() - 1;
        assert(cands[last] == c);
        assert forall|i: int| 0 <= i < init.len() implies #[trigger] init[i] == cands[i] by {}
        let rest = lowest_fit(start, placed, init, size);
        let r = lowest_fit(start, placed, cands, size);
        if let Some(x) = rest {
            let i = choose|i: int| 0 <= i < init.len() && init[i] == x;
            assert(cands[i] == x);
        }
        if let Some(a) = r {
            assert(cands.contains(a));
            assert forall|i: int|
                0 <= i < cands.len() && fits(start, placed, #[trigger] cands[i], size) implies a
                    <= cands[i] by {
                if i < last {
                    assert(init[i] == cands[i]);
                }
            }
        } else {
            assert forall|i: int| 0 <= i < cands.len() implies !fits(
                start,
                placed,
                #[trigger] cands[i],
                size,
            ) by {
                if i < last {
                    assert(init[i] == cands[i]);
                }
            }
        }
    }
}

/// Each flexible application of `place_flexible` lies at the lowest free
/// place among the regions placed before it.
proof fn lemma_place_flexible_lowest(start: u64, apps: Seq<TockApp>, n: int, fixed: Seq<Index>)
    requires
        0 <= n <= apps.len(),
        place_flexible(start, apps, n, fixed) is Some,
    ensures
        ({
            let p = place_flexible(start, apps, n, fixed)->0;
            &&& p.len() >= fixed.len()
            &&& forall|k: int|
                fixed.len() <= k < p.len() ==> lowest_free_place(start, p.take(k), #[trigger] p[k])
        }),
    decreases n,
{
    if n > 0 {
        lemma_place_flexible_lowest(start, apps, n - 1, fixed);
        let placed = place_flexible(start, apps, n - 1, fixed)->0;
        let p = place_flexible(start, apps, n, fixed)->0;
        if let TockApp::Flexible(f) = apps[n - 1] {
            let cands = candidates(start, placed);
            let size = f.size as int;
            lemma_lowest_fit_is_lowest(start, placed, cands, size);
            let a = lowest_fit(start, placed, cands, size)->0;
            let e = p[p.len() - 1];
            assert(e.address == a && e.size == f.size);
            assert forall|k: int| fixed.len() <= k < p.len() implies lowest_free_place(
                start,
                p.take(k),
                #[trigger] p[k],
            ) by {
                if k < placed.len() {
                    assert(p.take(k) =~= placed.take(k));
                    assert(p[k] == placed[k]);
                } else {
                    assert(p.take(k) =~= placed);
                    assert(cands[0] == start as int);
                    let i = choose|i: int| 0 <= i < cands.len() && cands[i] == a;
                    if i > 0 {
                        assert(cands[i] == placed[i - 1].address + placed[i - 1].size);
                    }
                    assert forall|j: int|
                        0 <= j < placed.len() && #[trigger] placed[j].address + placed[j].size
                            < e.address implies !fits(
                        start,
                        placed,
                        placed[j].address + placed[j].size,
                        e.size as int,
                    ) by {
                        assert(cands[j + 1] == placed[j].address + placed[j].size);
                    }
                }
            }
        }
    }
}

/// Each flexible application goes to the lowest place that admits it: among
/// the regions placed before it (the fixed applications and the flexible ones
/// before it in the list), it fits where it lies, it lies at the start address
/// or at the end of one of those regions, and neither the start address nor
/// the end of any of those regions below it would have admitted it.
pub proof fn lemma_flexible_app_goes_lowest(start: u64, apps: Seq<TockApp>, k: int)
    requires
        apps.len() <= usize::MAX,
        placement(start, apps) is Some,
        0 <= k < placement(start, apps)->0.len(),
        apps[placement(start, apps)->0[k].idx->0 as int] is Flexible,
    ensures
        ({
            let p = placement(start, apps)->0;
            let prior = p.take(k);
            let e = p[k];
            &&& fits(start, prior, e.address as int, e.size as int)
            &&& e.address == start || exists|j: int|
                0 <= j < k && e.address == #[trigger] prior[j].address + prior[j].size
            &&& start < e.address ==> !fits(start, prior, start as int, e.size as int)
            &&& forall|j: int|
                0 <= j < k && #[trigger] prior[j].address + prior[j].size < e.address ==> !fits(
                    start,
                    prior,
                    prior[j].address + prior[j].size,
                    e.size as int,
                )
        }),
{
    let n = apps.len() as int;
    lemma_place_fixed_apps(start, apps, n);
    let fixed = place_fixed(start, apps, n)->0;
    lemma_place_flexible_apps(start, apps, n, fixed);
    lemma_place_flexible_lowest(start, apps, n, fixed);
    let p = placement(start, apps)->0;
    if k < fixed.len() {
        assert(p[k] == fixed[k]);
        assert(apps[fixed[k].idx->0 as int] is Fixed);
    }
    assert(lowest_free_place(start, p.take(k), p[k]));
}

/// `e` lies at the first of `slots` that is free among `prior`: the slot
/// gives its flash and RAM addresses, it fits there, and no slot before it
/// would have admitted a region of its size.
pub open spec fn first_free_slot(
    start: u64,
    prior: Seq<Index>,
    slots: Seq<Option<(u64, u64)>>,
    e: Index,
) -> bool {
    &&& e.ram_address is Some
    &&& fits(start, prior, e.address as int, e.size as int)
    &&& exists|i: int|
        0 <= i < slots.len() && #[trigger] slots[i] == Some((e.address, e.ram_address->0))
            && forall|j: int|
            0 <= j < i && #[trigger] slots[j] is Some ==> !fits(
                start,
                prior,
                (slots[j]->0).0 as int,
                e.size as int,
            )
}

/// What [`first_fixed_slot`] picks is a slot that fits and no slot before it
/// fits.
proof fn lemma_first_fixed_slot_is_first(
    start: u64,
    placed: Seq<Index>,
    slots: Seq<Option<(u64, u64)>>,
    size: u64,
)
    ensures
        first_fixed_slot(start, placed, slots, size) matches Some(slot) ==> {
            &&& fits(start, placed, slot.0 as int, size as int)
            &&& exists|i: int|
                0 <= i < slots.len() && #[trigger] slots[i] == Some(slot) && forall|j: int|
                    0 <= j < i && #[trigger] slots[j] is Some ==> !fits(
                        start,
                        placed,
                        (slots[j]->0).0 as int,
                        size as int,
                    )
        },
    decreases slots.len(),
{
    if slots.len() > 0 {
        let rest = slots.drop_first();
        lemma_first_fixed_slot_is_first(start, placed, rest, size);
        if let Some(slot) = first_fixed_slot(start, placed, slots, size) {
            let took_first = match slots[0] {
                Some(s0) => fits(start, placed, s0.0 as int, size as int),
                None => false,
            };
            if took_first {
                assert(slots[0] == Some(slot));
                assert(forall|j: int| 0 <= j < 0 ==> #[trigger] slots[j] is Some ==> false);
            } else {
                assert(first_fixed_slot(start, placed, rest, size) == Some(slot));
                let i = choose|i: int|
                    0 <= i < rest.len() && #[trigger] rest[i] == Some(slot) && forall|j: int|
                        0 <= j < i && #[trigger] rest[j] is Some ==> !fits(
                            start,
                            placed,
                            (rest[j]->0).0 as int,
                            size as int,
                        );
                assert(slots[i + 1] == Some(slot));
                assert forall|j: int| 0 <= j < i + 1 && #[trigger] slots[j] is Some implies !fits(
                    start,
                    placed,
                    (slots[j]->0).0 as int,
                    size as int,
                ) by {
                    if j > 0 {
                        assert(slots[j] == rest[j - 1]);
                    }
                }
            }
        }
    }
}

/// Each fixed application of `place_fixed` lies at the first of its
/// addresses that is free among the regions placed before it.
proof fn lemma_place_fixed_first(start: u64, apps: Seq<TockApp>, n: int)
    requires
        0 <= n <= apps.len(),
        apps.len() <= usize::MAX,
        place_fixed(start, apps, n) is Some,
    ensures
        ({
            let p = place_fixed(start, apps, n)->0;
            forall|k: int|
                0 <= k < p.len() ==> {
                    &&& #[trigger] p[k].idx is Some
                    &&& p[k].idx->0 < n
                    &&& apps[p[k].idx->0 as int] is Fixed
                    &&& first_free_slot(
                        start,
                        p.take(k),
                        apps[p[k].idx->0 as int]->Fixed_0.compatible_addresses@,
                        p[k],
                    )
                }
        }),
    decreases n,
{
    if n > 0 {
        lemma_place_fixed_first(start, apps, n - 1);
        let placed = place_fixed(start, apps, n - 1)->0;
        let p = place_fixed(start, apps, n)->0;
        if let TockApp::Fixed(f) = apps[n - 1] {
            lemma_first_fixed_slot_is_first(start, placed, f.compatible_addresses@, f.size);
            assert forall|k: int| 0 <= k < p.len() implies {
                &&& #[trigger] p[k].idx is Some
                &&& p[k].idx->0 < n
                &&& apps[p[k].idx->0 as int] is Fixed
                &&& first_free_slot(
                    start,
                    p.take(k),
                    apps[p[k].idx->0 as int]->Fixed_0.compatible_addresses@,
                    p[k],
                )
            } by {
                if k < placed.len() {
                    assert(p.take(k) =~= placed.take(k));
                    assert(p[k] == placed[k]);
                } else {
                    assert(p.take(k) =~= placed);
                    let slots = f.compatible_addresses@;
                    let slot = first_fixed_slot(start, placed, slots, f.size)->0;
                    let e = p[k];
                    assert(e.address == slot.0 && e.ram_address == Some(slot.1) && e.size == f.size);
                    let i = choose|i: int|
                        0 <= i < slots.len() && #[trigger] slots[i] == Some(slot) && forall|j: int|
                            0 <= j < i && #[trigger] slots[j] is Some ==> !fits(
                                start,
                                placed,
                                (slots[j]->0).0 as int,
                                f.size as int,
                            );
                    assert(slots[i] == Some((e.address, e.ram_address->0)));
                }
            }
        }
    }
}

/// Each fixed application goes to the first of its compatible addresses that
/// is free of the fixed applications before it in the list: it fits there,
/// with the RAM address that goes with that flash address, and none of its
/// addresses listed before that one would have admitted it.
pub proof fn lemma_fixed_app_goes_first_free(start: u64, apps: Seq<TockApp>, k: int)
    requires
        apps.len() <= usize::MAX,
        placement(start, apps) is Some,
        0 <= k < placement(start, apps)->0.len(),
        apps[placement(start, apps)->0[k].idx->0 as int] is Fixed,
    ensures
        ({
            let p = placement(start, apps)->0;
            let prior = p.take(k);
            let e = p[k];
            let slots = apps[e.idx->0 as int]->Fixed_0.compatible_addresses@;
            &&& forall|j: int| 0 <= j < k ==> apps[#[trigger] prior[j].idx->0 as int] is Fixed
            &&& e.ram_address is Some
            &&& fits(start, prior, e.address as int, e.size as int)
            &&& exists|i: int|
                0 <= i < slots.len() && #[trigger] slots[i] == Some((e.address, e.ram_address->0))
                    && forall|j: int|
                    0 <= j < i && #[trigger] slots[j] is Some ==> !fits(
                        start,
                        prior,
                        (slots[j]->0).0 as int,
                        e.size as int,
                    )
        }),
{
    let n = apps.len() as int;
    lemma_place_fixed_apps(start, apps, n);
    lemma_place_fixed_first(start, apps, n);
    let fixed = place_fixed(start, apps, n)->0;
    lemma_place_flexible_apps(start, apps, n, fixed);
    let p = placement(start, apps)->0;
    if k >= fixed.len() {
        assert(apps[p[k].idx->0 as int] is Flexible);
    }
    assert(p[k] == fixed[k]);
    assert(p.take(k) =~= fixed.take(k));
    assert(first_free_slot(
        start,
        fixed.take(k),
        apps[fixed[k].idx->0 as int]->Fixed_0.compatible_addresses@,
        fixed[k],
    ));
    assert forall|j: int| 0 <= j < k implies apps[#[trigger] p.take(k)[j].idx->0 as int] is Fixed by {
        assert(p.take(k)[j] == fixed[j]);
    }
}

/// The fixed applications placed so far share no byte.
proof fn lemma_place_fixed_well_placed(start: u64, apps: Seq<TockApp>, n: int)
    requires
        apps_sized(apps),
        n <= apps.len(),
        place_fixed(start, apps, n) is Some,
    ensures
        well_placed(start, place_fixed(start, apps, n)->0),
    decreases n,
{
    if n > 0 {
        lemma_place_fixed_well_placed(start, apps, n - 1);
        let placed = place_fixed(start, apps, n - 1)->0;
        if let TockApp::Fixed(f) = apps[n - 1] {
            lemma_first_fixed_slot_fits(start, placed, f.compatible_addresses@, f.size);
            assert(apps[n - 1].spec_size() > 0);
            let slot = first_fixed_slot(start, placed, f.compatible_addresses@, f.size)->0;
            lemma_push_well_placed(
                start,
                placed,
                Index {
                    installed: f.installed,
                    idx: Some((n - 1) as usize),
                    ram_address: Some(slot.1),
                    address: slot.0,
                    size: f.size,
                },
            );
        }
    }
}

/// With the flexible applications added, the regions still share no byte.
proof fn lemma_place_flexible_well_placed(
    start: u64,
    apps: Seq<TockApp>,
    n: int,
    fixed: Seq<Index>,
)
    requires
        apps_sized(apps),
        n <= apps.len(),
        well_placed(start, fixed),
        place_flexible(start, apps, n, fixed) is Some,
    ensures
        well_placed(start, place_flexible(start, apps, n, fixed)->0),
    decreases n,
{
    if n > 0 {
        lemma_place_flexible_well_placed(start, apps, n - 1, fixed);
        let placed = place_flexible(start, apps, n - 1, fixed)->0;
        if let TockApp::Flexible(f) = apps[n - 1] {
            lemma_lowest_fit_fits(start, placed, candidates(start, placed), f.size as int);
            assert(apps[n - 1].spec_size() > 0);
            let a = lowest_fit(start, placed, candidates(start, placed), f.size as int)->0;
            lemma_push_well_placed(
                start,
                placed,
                Index {
                    installed: f.installed,
                    idx: Some((n - 1) as usize),
                    ram_address: None,
                    address: a as u64,
                    size: f.size,
                },
            );
        }
    }
}

/// A successful placement shares no byte between applications.
pub proof fn lemma_placement_well_placed(start: u64, apps: Seq<TockApp>)
    requires
        apps_sized(apps),
        placement(start, apps) is Some,
    ensures
        well_placed(start, placement(start, apps)->0),
{
    lemma_place_fixed_well_placed(start, apps, apps.len() as int);
    lemma_place_flexible_well_placed(
        start,
        apps,
        apps.len() as int,
        place_fixed(start, apps, apps.len() as int)->0,
    );
}

/// Two regions with a size that share no byte lie one wholly before the other.
proof fn lemma_disjoint_order(e: Index, x: Index)
    requires
        !overlaps(e, x.address as int, x.size as int),
        e.size > 0,
        x.size > 0,
    ensures
        e.address != x.address,
        e.address < x.address ==> e.address + e.size <= x.address,
        x.address < e.address ==> x.address + x.size <= e.address,
{
}

/// The regions of `placed` in order of address.
fn sort_by_address(start: u64, placed: &Vec<Index>) -> (sorted: Vec<Index>)
    requires
        well_placed(start, placed@),
    ensures
        ordered_regions(start, sorted@),
        sorted@.to_multiset() == placed@.to_multiset(),
{
    let mut sorted: Vec<Index> = Vec::new();
    let mut i: usize = 0;
    assert(placed@.take(0) =~= Seq::<Index>::empty());
    while i < placed.len()
        invariant
            i <= placed.len(),
            well_placed(start, placed@),
            ordered_regions(start, sorted@),
            sorted@.to_multiset() == placed@.take(i as int).to_multiset(),
            forall|a: int|
                0 <= a < sorted.len() ==> exists|j: int|
                    0 <= j < i && #[trigger] sorted@[a] == placed@[j],
        decreases placed.len() - i,
    {
        let x = placed[i];
        let mut pos: usize = 0;
        while pos < sorted.len() && sorted[pos].address < x.address
            invariant
                pos <= sorted.len(),
                forall|a: int| 0 <= a < pos ==> #[trigger] sorted@[a].address < x.address,
            decreases sorted.len() - pos,
        {
            pos = pos + 1;
        }
        let ghost old_sorted = sorted@;
        proof {
            assert forall|a: int| 0 <= a < old_sorted.len() implies #[trigger] old_sorted[a].address
                != x.address && (old_sorted[a].address < x.address ==> old_sorted[a].address
                + old_sorted[a].size <= x.address) && (x.address < old_sorted[a].address
                ==> x.address + x.size <= old_sorted[a].address) by {
                let j = choose|j: int| 0 <= j < i && old_sorted[a] == placed@[j];
                assert(!overlaps(placed@[j], placed@[i as int].address as int, placed@[i as int].size as int));
                lemma_disjoint_order(placed@[j], x);
            }
            assert forall|a: int| pos <= a < old_sorted.len() implies x.address
                < #[trigger] old_sorted[a].address by {
                if a > pos {
                    assert(old_sorted[pos as int].address + old_sorted[pos as int].size
                        <= old_sorted[a].address);
                }
            }
        }
        sorted.insert(pos, x);
        proof {
            let q = sorted@;
            assert(q == old_sorted.insert(pos as int, x));
            assert forall|a: int, b: int| 0 <= a < b < q.len() implies #[trigger] q[a].address
                + q[a].size <= #[trigger] q[b].address by {
                if b < pos {
                    assert(q[a] == old_sorted[a] && q[b] == old_sorted[b]);
                } else if b == pos {
                    assert(q[a] == old_sorted[a] && q[b] == x);
                } else if a < pos {
                    assert(q[a] == old_sorted[a] && q[b] == old_sorted[b - 1]);
                } else if a == pos {
                    assert(q[a] == x && q[b] == old_sorted[b - 1]);
                } else {
                    assert(q[a] == old_sorted[a - 1] && q[b] == old_sorted[b - 1]);
                }
            }
            assert forall|k: int| 0 <= k < q.len() implies {
                &&& start <= #[trigger] q[k].address
                &&& q[k].address + q[k].size <= u64::MAX
                &&& q[k].size > 0
            } by {
                if k < pos {
                    assert(q[k] == old_sorted[k]);
                } else if k > pos {
                    assert(q[k] == old_sorted[k - 1]);
                }
            }
            assert forall|a: int| 0 <= a < q.len() implies exists|j: int|
                0 <= j < i + 1 && #[trigger] q[a] == placed@[j] by {
                if a < pos {
                    assert(q[a] == old_sorted[a]);
                } else if a == pos {
                    assert(q[a] == placed@[i as int]);
                } else {
                    assert(q[a] == old_sorted[a - 1]);
                }
            }
            assert(placed@.take(i + 1) =~= placed@.take(i as int).push(x));
            vstd::seq_lib::to_multiset_insert(old_sorted, pos as int, x);
        }
        i = i + 1;
    }
    assert(placed@.take(placed.len() as int) =~= placed@);
    sorted
}

/// The regions of `sorted` with padding in the gaps, from `start` on.
fn pad_layout(start: u64, sorted: &Vec<Index>) -> (layout: Vec<Index>)
    requires
        ordered_regions(start, sorted@),
    ensures
        layout@ == pad_from(start as int, sorted@),
{
    let mut layout: Vec<Index> = Vec::new();
    let mut cursor: u64 = start;
    let mut k: usize = 0;
    assert(sorted@.skip(0) =~= sorted@);
    while k < sorted.len()
        invariant
            k <= sorted.len(),
            ordered_regions(start, sorted@),
            layout@ + pad_from(cursor as int, sorted@.skip(k as int)) == pad_from(
                start as int,
                sorted@,
            ),
            k == 0 ==> cursor == start,
            k > 0 ==> cursor == sorted@[k - 1].address + sorted@[k - 1].size,
        decreases sorted.len() - k,
    {
        let e = sorted[k];
        let ghost rest = sorted@.skip(k as int);
        assert(rest[0] == e);
        assert(rest.drop_first() =~= sorted@.skip(k + 1));
        let ghost tail = pad_from(e.address + e.size, sorted@.skip(k + 1));
        if e.address > cursor {
            let gap = Index {
                installed: false,
                idx: None,
                ram_address: None,
                address: cursor,
                size: e.address - cursor,
            };
            assert(gap == padding(cursor as int, e.address - cursor));
            layout.push(gap);
            layout.push(e);
            assert(layout@ + tail =~= (layout@.drop_last().drop_last() + (seq![gap] + (seq![e]
                + tail))));
        } else {
            layout.push(e);
            assert(layout@ + tail =~= (layout@.drop_last() + (seq![e] + tail)));
        }
        cursor = e.address + e.size;
        k = k + 1;
    }
    assert(sorted@.skip(k as int) =~= Seq::<Index>::empty());
    assert(layout@ + Seq::<Index>::empty() =~= layout@);
    layout
}

/// Lays the applications out in flash from the board's start address: the
/// fixed applications first, in order, each at the first of its compatible
/// addresses that is still free, with the RAM address that goes with it; then
/// the flexible ones, in order, each at the lowest free place (the start
/// address or the end of a region already placed). The layout lists the
/// regions in order of address, with padding in each gap before a region, and
/// names each application by its position in `apps`. `None` when an
/// application finds no place.
pub fn reshuffle_apps(settings: &BoardSettings, apps: Vec<TockApp>) -> (r: Option<Vec<Index>>)
    requires
        apps_sized(apps@),
    ensures
        r is None <==> placement(settings.start_address, apps@) is None,
        r matches Some(layout) ==> exists|s: Seq<Index>|
            #[trigger] ordered_regions(settings.start_address, s) && s.to_multiset() == placement(
                settings.start_address,
                apps@,
            )->0.to_multiset() && layout@ == pad_from(settings.start_address as int, s),
        r matches Some(layout) ==> {
            &&& contiguous_from(settings.start_address as int, layout@)
            &&& forall|k: int|
                0 <= k < layout.len() && #[trigger] layout@[k].idx is None ==> is_padding(
                    layout@[k],
                ) && k + 1 < layout.len() && layout@[k + 1].idx is Some
            &&& forall|k: int|
                0 <= k < layout.len() && #[trigger] layout@[k].idx is Some ==> layout@[k].idx->0
                    < apps.len() && describes(layout@[k], apps@[layout@[k].idx->0 as int])
            &&& forall|i: int| 0 <= i < apps.len() ==> #[trigger] has_region(layout@, i)
            &&& forall|a: int, b: int|
                0 <= a < layout.len() && 0 <= b < layout.len() && a != b
                    && #[trigger] layout@[a].idx is Some ==> layout@[a].idx
                    != #[trigger] layout@[b].idx
        },
{
    let start: u64 = settings.start_address;
    match place_apps(start, &apps) {
        None => None,
        Some(placed) => {
            proof {
                lemma_placement_well_placed(start, apps@);
            }
            let sorted = sort_by_address(start, &placed);
            let layout = pad_layout(start, &sorted);
            assert(ordered_regions(start, sorted@));
            let app_count: usize = apps.len();
            proof {
                assert(apps@.len() == app_count);
                lemma_layout_places_each_app_once(start, apps@, layout@);
            }
            Some(layout)
        },
    }
}

/// The regions of `s` lie from `cursor` on, in order, within the address
/// space, each with a size and an application.
pub open spec fn regions_from(cursor: int, s: Seq<Index>) -> bool {
    &&& forall|k: int|
        0 <= k < s.len() ==> {
            &&& cursor <= #[trigger] s[k].address
            &&& s[k].address + s[k].size <= u64::MAX
            &&& s[k].size > 0
            &&& s[k].idx is Some
        }
    &&& forall|i: int, j: int|
        0 <= i < j < s.len() ==> #[trigger] s[i].address + s[i].size <= #[trigger] s[j].address
}

/// A padding region: no application, not installed, no RAM address.
pub open spec fn is_padding(e: Index) -> bool {
    &&& e.idx is None
    &&& !e.installed
    &&& e.ram_address is None
}

/// The layout `l` covers the flash from `start` without a gap: each region
/// begins where the one before it ends, and each has a size.
pub open spec fn contiguous_from(start: int, l: Seq<Index>) -> bool {
    &&& l.len() > 0 ==> l[0].address == start
    &&& forall|k: int| 0 <= k < l.len() - 1 ==> #[trigger] l[k + 1].address == l[k].address + l[k].size
    &&& forall|k: int| 0 <= k < l.len() ==> #[trigger] l[k].size > 0
}

/// What [`pad_from`] builds: a layout without gaps from `cursor` on, in which
/// each region is either one of `s` or padding right before one of `s`, and
/// every region of `s` occurs.
proof fn lemma_pad_from(cursor: int, s: Seq<Index>)
    requires
        0 <= cursor,
        regions_from(cursor, s),
    ensures
        contiguous_from(cursor, pad_from(cursor, s)),
        forall|k: int|
            0 <= k < pad_from(cursor, s).len() ==> (#[trigger] pad_from(cursor, s)[k].idx is None
                ==> is_padding(pad_from(cursor, s)[k]) && k + 1 < pad_from(cursor, s).len()
                && pad_from(cursor, s)[k + 1].idx is Some),
        forall|k: int|
            0 <= k < pad_from(cursor, s).len() ==> (#[trigger] pad_from(cursor, s)[k].idx is Some
                ==> s.contains(pad_from(cursor, s)[k])),
        forall|a: int| 0 <= a < s.len() ==> pad_from(cursor, s).contains(#[trigger] s[a]),
    decreases s.len(),
{
    let l = pad_from(cursor, s);
    if s.len() > 0 {
        let e = s[0];
        let r = s.drop_first();
        let end = e.address + e.size;
        assert(regions_from(end, r)) by {
            assert forall|k: int| 0 <= k < r.len() implies end <= #[trigger] r[k].address by {
                assert(r[k] == s[k + 1]);
            }
            assert forall|i: int, j: int| 0 <= i < j < r.len() implies #[trigger] r[i].address
                + r[i].size <= #[trigger] r[j].address by {
                assert(r[i] == s[i + 1] && r[j] == s[j + 1]);
            }
        }
        lemma_pad_from(end, r);
        let t = pad_from(end, r);
        let head: Seq<Index> = if e.address > cursor {
            seq![padding(cursor, e.address - cursor), e]
        } else {
            seq![e]
        };
        assert(l =~= head + t);
        let h = head.len() as int;
        assert(head[h - 1] == e);
        assert forall|k: int| 0 <= k < l.len() - 1 implies #[trigger] l[k + 1].address
            == l[k].address + l[k].size by {
            if k + 1 < h {
            } else if k + 1 == h {
                if t.len() > 0 {
                    assert(l[k + 1] == t[0]);
                }
            } else {
                assert(l[k] == t[k - h] && l[k + 1] == t[k - h + 1]);
            }
        }
        assert forall|k: int| 0 <= k < l.len() implies #[trigger] l[k].size > 0 by {
            if k >= h {
                assert(l[k] == t[k - h]);
            }
        }
        assert forall|k: int| 0 <= k < l.len() && #[trigger] l[k].idx is None implies is_padding(l[k])
            && k + 1 < l.len() && l[k + 1].idx is Some by {
            if k >= h {
                assert(l[k] == t[k - h]);
                assert(l[k + 1] == t[k - h + 1]);
            }
        }
        assert forall|k: int| 0 <= k < l.len() && #[trigger] l[k].idx is Some implies s.contains(
            l[k],
        ) by {
            if k < h {
                assert(l[k] == e && s[0] == e);
            } else {
                assert(l[k] == t[k - h]);
                let j = choose|j: int| 0 <= j < r.len() && r[j] == t[k - h];
                assert(s[j + 1] == r[j]);
            }
        }
        assert forall|a: int| 0 <= a < s.len() implies l.contains(#[trigger] s[a]) by {
            if a == 0 {
                assert(l[h - 1] == e);
            } else {
                assert(s[a] == r[a - 1]);
                let j = choose|j: int| 0 <= j < t.len() && t[j] == r[a - 1];
                assert(l[h + j] == t[j]);
            }
        }
    }
}

/// The region `e` is where the application `app` goes: it has the
/// application's size and installed flag; a fixed application sits at one of
/// its compatible addresses, with the RAM address that goes with it, and a
/// flexible one has no RAM address.
pub open spec fn describes(e: Index, app: TockApp) -> bool {
    match app {
        TockApp::Fixed(f) => {
            &&& e.installed == f.installed
            &&& e.size == f.size
            &&& e.ram_address is Some
            &&& f.compatible_addresses@.contains(Some((e.address, e.ram_address->0)))
        },
        TockApp::Flexible(f) => {
            &&& e.installed == f.installed
            &&& e.size == f.size
            &&& e.ram_address is None
        },
    }
}

proof fn lemma_place_fixed_apps(start: u64, apps: Seq<TockApp>, n: int)
    requires
        0 <= n <= apps.len(),
        apps.len() <= usize::MAX,
        place_fixed(start, apps, n) is Some,
    ensures
        ({
            let p = place_fixed(start, apps, n)->0;
            &&& forall|k: int|
                0 <= k < p.len() ==> {
                    &&& #[trigger] p[k].idx is Some
                    &&& p[k].idx->0 < n
                    &&& apps[p[k].idx->0 as int] is Fixed
                    &&& describes(p[k], apps[p[k].idx->0 as int])
                }
            &&& forall|a: int, b: int|
                0 <= a < b < p.len() ==> #[trigger] p[a].idx->0 < #[trigger] p[b].idx->0
            &&& forall|i: int|
                0 <= i < n && #[trigger] apps[i] is Fixed ==> exists|k: int|
                    0 <= k < p.len() && #[trigger] p[k].idx == Some(i as usize)
        }),
    decreases n,
{
    if n > 0 {
        lemma_place_fixed_apps(start, apps, n - 1);
        let placed = place_fixed(start, apps, n - 1)->0;
        let p = place_fixed(start, apps, n)->0;
        if let TockApp::Fixed(f) = apps[n - 1] {
            lemma_first_fixed_slot_fits(start, placed, f.compatible_addresses@, f.size);
            assert(p.drop_last() == placed);
            assert forall|k: int| 0 <= k < p.len() implies {
                &&& #[trigger] p[k].idx is Some
                &&& p[k].idx->0 < n
                &&& apps[p[k].idx->0 as int] is Fixed
                &&& describes(p[k], apps[p[k].idx->0 as int])
            } by {
                if k < placed.len() {
                    assert(p[k] == placed[k]);
                }
            }
            assert forall|a: int, b: int| 0 <= a < b < p.len() implies #[trigger] p[a].idx->0
                < #[trigger] p[b].idx->0 by {
                assert(p[a] == placed[a]);
                if b < placed.len() {
                    assert(p[b] == placed[b]);
                }
            }
            assert forall|i: int| 0 <= i < n && #[trigger] apps[i] is Fixed implies exists|k: int|
                0 <= k < p.len() && #[trigger] p[k].idx == Some(i as usize) by {
                if i < n - 1 {
                    let k = choose|k: int| 0 <= k < placed.len() && #[trigger] placed[k].idx == Some(i as usize);
                    assert(p[k] == placed[k]);
                } else {
                    assert(p[p.len() - 1].idx == Some(i as usize));
                }
            }
        }
    }
}

proof fn lemma_place_flexible_apps(start: u64, apps: Seq<TockApp>, n: int, fixed: Seq<Index>)
    requires
        0 <= n <= apps.len(),
        apps.len() <= usize::MAX,
        place_flexible(start, apps, n, fixed) is Some,
    ensures
        ({
            let p = place_flexible(start, apps, n, fixed)->0;
            &&& p.len() >= fixed.len()
            &&& forall|k: int| 0 <= k < fixed.len() ==> #[trigger] p[k] == fixed[k]
            &&& forall|k: int|
                fixed.len() <= k < p.len() ==> {
                    &&& #[trigger] p[k].idx is Some
                    &&& p[k].idx->0 < n
                    &&& apps[p[k].idx->0 as int] is Flexible
                    &&& describes(p[k], apps[p[k].idx->0 as int])
                }
            &&& forall|a: int, b: int|
                fixed.len() <= a < b < p.len() ==> #[trigger] p[a].idx->0 < #[trigger] p[b].idx->0
            &&& forall|i: int|
                0 <= i < n && #[trigger] apps[i] is Flexible ==> exists|k: int|
                    fixed.len() <= k < p.len() && #[trigger] p[k].idx == Some(i as usize)
        }),
    decreases n,
{
    if n > 0 {
        lemma_place_flexible_apps(start, apps, n - 1, fixed);
        let placed = place_flexible(start, apps, n - 1, fixed)->0;
        let p = place_flexible(start, apps, n, fixed)->0;
        if let TockApp::Flexible(f) = apps[n - 1] {
            assert(p.drop_last() == placed);
            assert forall|k: int| 0 <= k < fixed.len() implies #[trigger] p[k] == fixed[k] by {
                assert(p[k] == placed[k]);
            }
            assert forall|k: int| fixed.len() <= k < p.len() implies {
                &&& #[trigger] p[k].idx is Some
                &&& p[k].idx->0 < n
                &&& apps[p[k].idx->0 as int] is Flexible
                &&& describes(p[k], apps[p[k].idx->0 as int])
            } by {
                if k < placed.len() {
                    assert(p[k] == placed[k]);
                }
            }
            assert forall|a: int, b: int| fixed.len() <= a < b < p.len() implies #[trigger] p[a].idx->0
                < #[trigger] p[b].idx->0 by {
                assert(p[a] == placed[a]);
                if b < placed.len() {
                    assert(p[b] == placed[b]);
                }
            }
            assert forall|i: int| 0 <= i < n && #[trigger] apps[i] is Flexible implies exists|k: int|
                fixed.len() <= k < p.len() && #[trigger] p[k].idx == Some(i as usize) by {
                if i < n - 1 {
                    let k = choose|k: int|
                        fixed.len() <= k < placed.len() && #[trigger] placed[k].idx == Some(i as usize);
                    assert(p[k] == placed[k]);
                } else {
                    assert(p[p.len() - 1].idx == Some(i as usize));
                }
            }
        }
    }
}

/// Some region of `p` belongs to the application at position `i`.
pub open spec fn has_region(p: Seq<Index>, i: int) -> bool {
    exists|k: int| 0 <= k < p.len() && #[trigger] p[k].idx == Some(i as usize)
}

/// In a successful placement each application has exactly one region, and
/// that region is where the application goes.
pub proof fn lemma_placement_places_each_app_once(start: u64, apps: Seq<TockApp>)
    requires
        apps.len() <= usize::MAX,
        placement(start, apps) is Some,
    ensures
        ({
            let p = placement(start, apps)->0;
            &&& forall|k: int|
                0 <= k < p.len() ==> {
                    &&& #[trigger] p[k].idx is Some
                    &&& p[k].idx->0 < apps.len()
                    &&& describes(p[k], apps[p[k].idx->0 as int])
                }
            &&& forall|a: int, b: int|
                0 <= a < p.len() && 0 <= b < p.len() && a != b ==> #[trigger] p[a].idx
                    != #[trigger] p[b].idx
            &&& forall|i: int| 0 <= i < apps.len() ==> #[trigger] has_region(p, i)
        }),
{
    let n = apps.len() as int;
    lemma_place_fixed_apps(start, apps, n);
    let fixed = place_fixed(start, apps, n)->0;
    lemma_place_flexible_apps(start, apps, n, fixed);
    let p = placement(start, apps)->0;
    assert forall|k: int| 0 <= k < p.len() implies {
        &&& #[trigger] p[k].idx is Some
        &&& p[k].idx->0 < apps.len()
        &&& describes(p[k], apps[p[k].idx->0 as int])
    } by {
        if k < fixed.len() {
            assert(p[k] == fixed[k]);
        }
    }
    assert forall|a: int, b: int| 0 <= a < p.len() && 0 <= b < p.len() && a != b implies #[trigger] p[a].idx
        != #[trigger] p[b].idx by {
        if a < fixed.len() && b < fixed.len() {
            assert(p[a] == fixed[a] && p[b] == fixed[b]);
            if a < b {
                assert(fixed[a].idx->0 < fixed[b].idx->0);
            } else {
                assert(fixed[b].idx->0 < fixed[a].idx->0);
            }
        } else if a < fixed.len() {
            assert(p[a] == fixed[a]);
        } else if b < fixed.len() {
            assert(p[b] == fixed[b]);
        } else if a < b {
            assert(p[a].idx->0 < p[b].idx->0);
        } else {
            assert(p[b].idx->0 < p[a].idx->0);
        }
    }
    assert forall|i: int| 0 <= i < apps.len() implies #[trigger] has_region(p, i) by {
        if apps[i] is Fixed {
            let k = choose|k: int| 0 <= k < fixed.len() && #[trigger] fixed[k].idx == Some(i as usize);
            assert(p[k] == fixed[k]);
        } else {
            assert(apps[i] is Flexible);
        }
    }
}

/// In a layout without gaps, regions further on start at higher addresses.
proof fn lemma_contiguous_increasing(start: int, l: Seq<Index>, a: int, b: int)
    requires
        contiguous_from(start, l),
        0 <= a < b < l.len(),
    ensures
        l[a].address < l[b].address,
    decreases b - a,
{
    assert(l[a + 1].address == l[a].address + l[a].size);
    assert(l[a].size > 0);
    if a + 1 < b {
        lemma_contiguous_increasing(start, l, a + 1, b);
    }
}

/// What a layout that `reshuffle_apps` returns is: it covers the flash from
/// the start address on without gap or overlap, each padding region comes
/// right before an application's region, and each application has exactly one
/// region, the one where it goes (for a fixed application one of its
/// compatible addresses with its RAM address).
pub proof fn lemma_layout_places_each_app_once(start: u64, apps: Seq<TockApp>, layout: Seq<Index>)
    requires
        apps_sized(apps),
        apps.len() <= usize::MAX,
        placement(start, apps) is Some,
        exists|s: Seq<Index>|
            #[trigger] ordered_regions(start, s) && s.to_multiset() == placement(start, apps)->0.to_multiset()
                && layout == pad_from(start as int, s),
    ensures
        contiguous_from(start as int, layout),
        forall|k: int|
            0 <= k < layout.len() && #[trigger] layout[k].idx is None ==> is_padding(layout[k]) && k
                + 1 < layout.len() && layout[k + 1].idx is Some,
        forall|k: int|
            0 <= k < layout.len() && #[trigger] layout[k].idx is Some ==> layout[k].idx->0
                < apps.len() && describes(layout[k], apps[layout[k].idx->0 as int]),
        forall|i: int| 0 <= i < apps.len() ==> #[trigger] has_region(layout, i),
        forall|a: int, b: int|
            0 <= a < layout.len() && 0 <= b < layout.len() && a != b && #[trigger] layout[a].idx
                is Some ==> layout[a].idx != #[trigger] layout[b].idx,
{
    let p = placement(start, apps)->0;
    let s = choose|s: Seq<Index>|
        #[trigger] ordered_regions(start, s) && s.to_multiset() == p.to_multiset() && layout
            == pad_from(start as int, s);
    lemma_placement_places_each_app_once(start, apps);
    assert forall|x: Index| s.contains(x) implies p.contains(x) by {
        assert(s.to_multiset().count(x) > 0);
    }
    assert forall|x: Index| p.contains(x) implies s.contains(x) by {
        assert(p.to_multiset().count(x) > 0);
    }
    assert(regions_from(start as int, s)) by {
        assert forall|k: int| 0 <= k < s.len() implies #[trigger] s[k].idx is Some by {
            assert(s.contains(s[k]));
            let j = choose|j: int| 0 <= j < p.len() && p[j] == s[k];
            assert(p[j].idx is Some);
        }
    }
    lemma_pad_from(start as int, s);
    assert forall|k: int| 0 <= k < layout.len() && #[trigger] layout[k].idx is Some implies layout[k].idx->0
        < apps.len() && describes(layout[k], apps[layout[k].idx->0 as int]) by {
        assert(s.contains(layout[k]));
        let j = choose|j: int| 0 <= j < p.len() && p[j] == layout[k];
        assert(p[j].idx is Some);
    }
    assert forall|i: int| 0 <= i < apps.len() implies #[trigger] has_region(layout, i) by {
        assert(has_region(p, i));
        let k = choose|k: int| 0 <= k < p.len() && #[trigger] p[k].idx == Some(i as usize);
        assert(p.contains(p[k]));
        let a = choose|a: int| 0 <= a < s.len() && s[a] == p[k];
        assert(layout.contains(s[a]));
        let m = choose|m: int| 0 <= m < layout.len() && layout[m] == s[a];
        assert(layout[m].idx == Some(i as usize));
    }
    assert forall|a: int, b: int|
        0 <= a < layout.len() && 0 <= b < layout.len() && a != b && #[trigger] layout[a].idx
            is Some implies layout[a].idx != #[trigger] layout[b].idx by {
        if layout[a].idx == layout[b].idx {
            assert(s.contains(layout[a]) && s.contains(layout[b]));
            let ja = choose|j: int| 0 <= j < p.len() && p[j] == layout[a];
            let jb = choose|j: int| 0 <= j < p.len() && p[j] == layout[b];
            assert(p[ja].idx == p[jb].idx);
            assert(ja == jb);
            if a < b {
                lemma_contiguous_increasing(start as int, layout, a, b);
            } else {
                lemma_contiguous_increasing(start as int, layout, b, a);
            }
        }
    }
}

} // verus!
