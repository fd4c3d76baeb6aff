//! The discrete decisions of the system analyzer: how an aspect's phase and
//! its duration advance, and which aspects a cascade reaches through the
//! interrelation graph.
use vstd::prelude::*;

verus! {

/// Phase code of growth.
pub const PHASE_GROWTH: u8 = 0;

/// Phase code of stability.
pub const PHASE_STABILITY: u8 = 1;

/// Phase code of crisis.
pub const PHASE_CRISIS: u8 = 2;

/// Phase code of recovery.
pub const PHASE_RECOVERY: u8 = 3;

/// The phase an aspect enters: crisis when volatile; when trending, recovery
/// right after a crisis and growth otherwise; stability else.
pub open spec fn phase_after(prev_phase: u8, volatile: bool, trending: bool) -> u8 {
    if volatile {
        PHASE_CRISIS
    } else if trending {
        if prev_phase == PHASE_CRISIS {
            PHASE_RECOVERY
        } else {
            PHASE_GROWTH
        }
    } else {
        PHASE_STABILITY
    }
}

/// The new phase and the number of consecutive updates it has now held.
pub fn advance_phase(prev_phase: u8, prev_duration: u32, volatile: bool, trending: bool) -> (next: (
    u8,
    u32,
))
    requires
        phase_after(prev_phase, volatile, trending) == prev_phase ==> prev_duration < u32::MAX,
    ensures
        next.0 == phase_after(prev_phase, volatile, trending),
        next.0 == prev_phase ==> next.1 == prev_duration + 1,
        next.0 != prev_phase ==> next.1 == 1,
{
    let phase: u8 = if volatile {
        PHASE_CRISIS
    } else if trending {
        if prev_phase == PHASE_CRISIS {
            PHASE_RECOVERY
        } else {
            PHASE_GROWTH
        }
    } else {
        PHASE_STABILITY
    };
    let duration: u32 = if phase == prev_phase {
        prev_duration + 1
    } else {
        1
    };
    (phase, duration)
}

/// Advances the phase and duration of every aspect at once: aspect `i`
/// enters `phase_after(phases[i], volatile[i], trending[i])`, and its duration
/// grows by one when the phase stays and restarts at 1 when it changes.
pub fn advance_phases(
    phases: &mut Vec<u8>,
    durations: &mut Vec<u32>,
    volatile: &Vec<bool>,
    trending: &Vec<bool>,
)
    requires
        old(durations)@.len() == old(phases)@.len(),
        volatile@.len() == old(phases)@.len(),
        trending@.len() == old(phases)@.len(),
        forall|i: int|
            0 <= i < old(phases)@.len() && phase_after(
                #[trigger] old(phases)@[i],
                volatile@[i],
                trending@[i],
            ) == old(phases)@[i] ==> old(durations)@[i] < u32::MAX,
    ensures
        final(phases)@.len() == old(phases)@.len(),
        final(durations)@.len() == old(phases)@.len(),
        forall|i: int|
            0 <= i < old(phases)@.len() ==> {
                &&& #[trigger] final(phases)@[i] == phase_after(
                    old(phases)@[i],
                    volatile@[i],
                    trending@[i],
                )
                &&& final(durations)@[i] == if final(phases)@[i] == old(phases)@[i] {
                    (old(durations)@[i] + 1) as u32
                } else {
                    1u32
                }
            },
{
    let ghost p0: Seq<u8> = phases@;
    let ghost d0: Seq<u32> = durations@;
    let mut i: usize = 0;
    while i < phases.len()
        invariant
            i <= phases@.len(),
            phases@.len() == p0.len(),
            durations@.len() == p0.len(),
            d0.len() == p0.len(),
            volatile@.len() == p0.len(),
            trending@.len() == p0.len(),
            p0 == old(phases)@,
            d0 == old(durations)@,
            forall|j: int|
                0 <= j < p0.len() && phase_after(#[trigger] p0[j], volatile@[j], trending@[j])
                    == p0[j] ==> d0[j] < u32::MAX,
            forall|j: int| i <= j < p0.len() ==> phases@[j] == p0[j] && durations@[j] == d0[j],
            forall|j: int|
                0 <= j < i ==> {
                    &&& #[trigger] phases@[j] == phase_after(p0[j], volatile@[j], trending@[j])
                    &&& durations@[j] == if phases@[j] == p0[j] {
                        (d0[j] + 1) as u32
                    } else {
                        1u32
                    }
                },
        decreases p0.len() - i,
    {
        let ghost k: int = i as int;
        assert(phase_after(p0[k], volatile@[k], trending@[k]) == p0[k] ==> d0[k] < u32::MAX);
        let (p, d) = advance_phase(phases[i], durations[i], volatile[i], trending[i]);
        phases.set(i, p);
        durations.set(i, d);
        i = i + 1;
    }
}

/// Recovery is only ever entered straight from a crisis, and every phase is
/// one of the four codes.
pub proof fn lemma_recovery_follows_crisis(prev_phase: u8, volatile: bool, trending: bool)
    ensures
        phase_after(prev_phase, volatile, trending) == PHASE_RECOVERY ==> prev_phase
            == PHASE_CRISIS,
        phase_after(prev_phase, volatile, trending) <= PHASE_RECOVERY,
{
}

/// What each phase is entered from: a volatile aspect is in crisis; a
/// steady aspect (neither volatile nor trending) is stable; a trending aspect
/// that is not volatile recovers when it was in crisis and grows from every
/// other phase, stability included.
pub proof fn lemma_phase_entered(prev_phase: u8, volatile: bool, trending: bool)
    ensures
        volatile ==> phase_after(prev_phase, volatile, trending) == PHASE_CRISIS,
        !volatile && !trending ==> phase_after(prev_phase, volatile, trending) == PHASE_STABILITY,
        !volatile && trending && prev_phase == PHASE_CRISIS ==> phase_after(
            prev_phase,
            volatile,
            trending,
        ) == PHASE_RECOVERY,
        !volatile && trending && prev_phase != PHASE_CRISIS ==> phase_after(
            prev_phase,
            volatile,
            trending,
        ) == PHASE_GROWTH,
        PHASE_GROWTH == 0 && PHASE_STABILITY == 1 && PHASE_CRISIS == 2 && PHASE_RECOVERY == 3,
{
}

/// The indices `j < k`, ascending, that `row` links to, other than `skip_a`
/// and `skip_b`.
pub open spec fn neighbours(row: Seq<bool>, skip_a: int, skip_b: int, k: nat) -> Seq<usize>
    decreases k,
{
    if k == 0 {
        Seq::empty()
    } else {
        let rest = neighbours(row, skip_a, skip_b, (k - 1) as nat);
        let j = k - 1;
        if row[j] && j != skip_a && j != skip_b {
            rest.push(j as usize)
        } else {
            rest
        }
    }
}

/// The entries of `s` whose flag is set, in order.
pub open spec fn keep_flagged(s: Seq<usize>, flag: Seq<bool>) -> Seq<usize>
    decreases s.len(),
{
    if s.len() == 0 {
        Seq::empty()
    } else {
        let rest = keep_flagged(s.drop_last(), flag);
        if flag[s.last() as int] {
            rest.push(s.last())
        } else {
            rest
        }
    }
}

/// For the first `i` directly linked aspects, in order, their own linked
/// aspects (other than themselves and the trigger) whose flag is set.
pub open spec fn second_level(
    linked: Seq<Seq<bool>>,
    connected: Seq<usize>,
    trigger: int,
    flag: Seq<bool>,
    i: nat,
) -> Seq<usize>
    decreases i,
{
    if i == 0 {
        Seq::empty()
    } else {
        let c = connected[i - 1];
        second_level(linked, connected, trigger, flag, (i - 1) as nat) + keep_flagged(
            neighbours(linked[c as int], c as int, trigger, linked.len()),
            flag,
        )
    }
}

/// Each index of `s` paired with the depth `depth`.
pub open spec fn at_depth(s: Seq<usize>, depth: u8) -> Seq<(usize, u8)> {
    s.map_values(|j: usize| (j, depth))
}

/// The aspects a cascade from `trigger` reaches: first the aspects the
/// trigger links to that moved strongly (depth 0), then, for each aspect the
/// trigger links to, the aspects it links to (other than itself and the
/// trigger) that moved moderately (depth 1).
pub open spec fn cascade_reach(
    linked: Seq<Seq<bool>>,
    trigger: int,
    strong: Seq<bool>,
    moderate: Seq<bool>,
) -> Seq<(usize, u8)> {
    let connected = neighbours(linked[trigger], trigger, trigger, linked.len());
    at_depth(keep_flagged(connected, strong), 0) + at_depth(
        second_level(linked, connected, trigger, moderate, connected.len()),
        1,
    )
}

/// `neighbours` never lists the skipped indices.
proof fn lemma_neighbours_skip(row: Seq<bool>, skip_a: int, skip_b: int, k: nat)
    requires
        k <= usize::MAX,
    ensures
        forall|i: int|
            0 <= i < neighbours(row, skip_a, skip_b, k).len() ==> {
                let j = #[trigger] neighbours(row, skip_a, skip_b, k)[i];
                j != skip_a && j != skip_b && row[j as int]
            },
    decreases k,
{
    if k > 0 {
        lemma_neighbours_skip(row, skip_a, skip_b, (k - 1) as nat);
        lemma_neighbours_bounded(row, skip_a, skip_b, (k - 1) as nat);
        let rest = neighbours(row, skip_a, skip_b, (k - 1) as nat);
        let all = neighbours(row, skip_a, skip_b, k);
        assert forall|i: int| 0 <= i < all.len() implies {
            let j = #[trigger] all[i];
            j != skip_a && j != skip_b && row[j as int]
        } by {
            if i < rest.len() {
                assert(all[i] == rest[i]);
            }
        }
    }
}

/// The entries of `neighbours` up to `k` are below `k`.
proof fn lemma_neighbours_bounded(row: Seq<bool>, skip_a: int, skip_b: int, k: nat)
    ensures
        forall|i: int|
            0 <= i < neighbours(row, skip_a, skip_b, k).len() ==> #[trigger] neighbours(
                row,
                skip_a,
                skip_b,
                k,
            )[i] < k,
    decreases k,
{
    if k > 0 {
        lemma_neighbours_bounded(row, skip_a, skip_b, (k - 1) as nat);
        let rest = neighbours(row, skip_a, skip_b, (k - 1) as nat);
        let all = neighbours(row, skip_a, skip_b, k);
        assert forall|i: int| 0 <= i < all.len() implies #[trigger] all[i] < k by {
            if i < rest.len() {
                assert(rest[i] < k - 1);
            }
        }
    }
}

/// Every entry `keep_flagged` keeps is an entry of `s` whose flag is set.
proof fn lemma_keep_flagged_subset(s: Seq<usize>, flag: Seq<bool>)
    ensures
        forall|i: int|
            0 <= i < keep_flagged(s, flag).len() ==> s.contains(#[trigger] keep_flagged(s, flag)[i])
                && flag[keep_flagged(s, flag)[i] as int],
    decreases s.len(),
{
    if s.len() > 0 {
        lemma_keep_flagged_subset(s.drop_last(), flag);
        let rest = keep_flagged(s.drop_last(), flag);
        let all = keep_flagged(s, flag);
        assert forall|i: int| 0 <= i < all.len() implies s.contains(#[trigger] all[i]) && flag[all[i] as int] by {
            if i < rest.len() {
                assert(all[i] == rest[i]);
                assert(s.drop_last().contains(rest[i]));
                let j: int = choose|j: int| 0 <= j < s.drop_last().len() && s.drop_last()[j] == rest[i];
                assert(s[j] == rest[i]);
            } else {
                assert(s[s.len() - 1] == all[i]);
            }
        }
    }
}

/// A cascade never leads back to its trigger: no entry of the path is the
/// trigger, every depth-0 entry is linked from the trigger and moved
/// strongly, and every depth is 0 or 1.
pub proof fn lemma_cascade_avoids_trigger(
    linked: Seq<Seq<bool>>,
    trigger: int,
    strong: Seq<bool>,
    moderate: Seq<bool>,
)
    requires
        linked.len() <= usize::MAX,
    ensures
        forall|i: int|
            0 <= i < cascade_reach(linked, trigger, strong, moderate).len() ==> {
                let e = #[trigger] cascade_reach(linked, trigger, strong, moderate)[i];
                &&& e.0 != trigger
                &&& e.1 <= 1
                &&& e.1 == 0 ==> linked[trigger][e.0 as int] && strong[e.0 as int]
            },
{
    let connected = neighbours(linked[trigger], trigger, trigger, linked.len());
    let first = keep_flagged(connected, strong);
    let second = second_level(linked, connected, trigger, moderate, connected.len());
    lemma_neighbours_skip(linked[trigger], trigger, trigger, linked.len());
    lemma_keep_flagged_subset(connected, strong);
    lemma_second_level_avoids(linked, connected, trigger, moderate, connected.len());
    let path = cascade_reach(linked, trigger, strong, moderate);
    assert forall|i: int| 0 <= i < path.len() implies {
        let e = #[trigger] path[i];
        &&& e.0 != trigger
        &&& e.1 <= 1
        &&& e.1 == 0 ==> linked[trigger][e.0 as int] && strong[e.0 as int]
    } by {
        if i < first.len() {
            assert(path[i] == (first[i], 0u8));
            let j: int = choose|j: int| 0 <= j < connected.len() && connected[j] == first[i];
            assert(connected[j] != trigger);
        } else {
            assert(path[i] == (second[i - first.len()], 1u8));
        }
    }
}

/// No second-level entry is the trigger.
proof fn lemma_second_level_avoids(
    linked: Seq<Seq<bool>>,
    connected: Seq<usize>,
    trigger: int,
    flag: Seq<bool>,
    i: nat,
)
    requires
        linked.len() <= usize::MAX,
    ensures
        forall|k: int|
            0 <= k < second_level(linked, connected, trigger, flag, i).len() ==> #[trigger] second_level(
                linked,
                connected,
                trigger,
                flag,
                i,
            )[k] != trigger,
    decreases i,
{
    if i > 0 {
        lemma_second_level_avoids(linked, connected, trigger, flag, (i - 1) as nat);
        let c = connected[i - 1];
        let nb = neighbours(linked[c as int], c as int, trigger, linked.len());
        lemma_neighbours_skip(linked[c as int], c as int, trigger, linked.len());
        lemma_keep_flagged_subset(nb, flag);
        let rest = second_level(linked, connected, trigger, flag, (i - 1) as nat);
        let tail = keep_flagged(nb, flag);
        let all = second_level(linked, connected, trigger, flag, i);
        assert forall|k: int| 0 <= k < all.len() implies #[trigger] all[k] != trigger by {
            if k < rest.len() {
                assert(all[k] == rest[k]);
            } else {
                assert(all[k] == tail[k - rest.len()]);
                let j: int = choose|j: int| 0 <= j < nb.len() && nb[j] == tail[k - rest.len()];
                assert(nb[j] != trigger);
            }
        }
    }
}

/// `neighbours` lists every index below `k` that `row` links to and that is
/// not skipped.
proof fn lemma_neighbours_complete(row: Seq<bool>, skip_a: int, skip_b: int, k: nat)
    requires
        k <= usize::MAX,
    ensures
        forall|j: int|
            #![trigger row[j]]
            0 <= j < k && row[j] && j != skip_a && j != skip_b ==> neighbours(
                row,
                skip_a,
                skip_b,
                k,
            ).contains(j as usize),
    decreases k,
{
    if k > 0 {
        lemma_neighbours_complete(row, skip_a, skip_b, (k - 1) as nat);
        let rest = neighbours(row, skip_a, skip_b, (k - 1) as nat);
        let all = neighbours(row, skip_a, skip_b, k);
        assert forall|j: int| 0 <= j < k && row[j] && j != skip_a && j != skip_b implies all.contains(
            j as usize,
        ) by {
            if j < k - 1 {
                assert(rest.contains(j as usize));
                let idx: int = choose|idx: int| 0 <= idx < rest.len() && rest[idx] == j as usize;
                assert(all[idx] == rest[idx]);
            } else {
                assert(all[all.len() - 1] == j as usize);
            }
        }
    }
}

/// `keep_flagged` keeps every entry of `s` whose flag is set.
proof fn lemma_keep_flagged_complete(s: Seq<usize>, flag: Seq<bool>)
    ensures
        forall|x: usize|
            s.contains(x) && flag[x as int] ==> #[trigger] keep_flagged(s, flag).contains(x),
    decreases s.len(),
{
    if s.len() > 0 {
        lemma_keep_flagged_complete(s.drop_last(), flag);
        let rest = keep_flagged(s.drop_last(), flag);
        let all = keep_flagged(s, flag);
        assert forall|x: usize| s.contains(x) && flag[x as int] implies all.contains(x) by {
            let i: int = choose|i: int| 0 <= i < s.len() && s[i] == x;
            if i < s.len() - 1 {
                assert(s.drop_last()[i] == x);
                assert(s.drop_last().contains(x));
                assert(rest.contains(x));
                let idx: int = choose|idx: int| 0 <= idx < rest.len() && rest[idx] == x;
                assert(all[idx] == rest[idx]);
            } else {
                assert(all[all.len() - 1] == x);
            }
        }
    }
}

/// What the `m`-th directly linked aspect contributes is part of the second
/// level once `m` is below `i`.
proof fn lemma_second_level_includes(
    linked: Seq<Seq<bool>>,
    connected: Seq<usize>,
    trigger: int,
    flag: Seq<bool>,
    i: nat,
    m: int,
    x: usize,
)
    requires
        0 <= m < i,
        keep_flagged(
            neighbours(linked[connected[m] as int], connected[m] as int, trigger, linked.len()),
            flag,
        ).contains(x),
    ensures
        second_level(linked, connected, trigger, flag, i).contains(x),
    decreases i,
{
    let c = connected[i - 1];
    let rest = second_level(linked, connected, trigger, flag, (i - 1) as nat);
    let tail = keep_flagged(neighbours(linked[c as int], c as int, trigger, linked.len()), flag);
    let all = second_level(linked, connected, trigger, flag, i);
    assert(all == rest + tail);
    if m < i - 1 {
        lemma_second_level_includes(linked, connected, trigger, flag, (i - 1) as nat, m, x);
        let idx: int = choose|idx: int| 0 <= idx < rest.len() && rest[idx] == x;
        assert(all[idx] == x);
    } else {
        let idx: int = choose|idx: int| 0 <= idx < tail.len() && tail[idx] == x;
        assert(all[rest.len() + idx] == x);
    }
}

/// Every second-level entry comes from one of the first `i` directly linked
/// aspects; the result is the position of that aspect.
proof fn lemma_second_level_origin(
    linked: Seq<Seq<bool>>,
    connected: Seq<usize>,
    trigger: int,
    flag: Seq<bool>,
    i: nat,
    k: int,
) -> (m: int)
    requires
        0 <= k < second_level(linked, connected, trigger, flag, i).len(),
    ensures
        0 <= m < i,
        keep_flagged(
            neighbours(linked[connected[m] as int], connected[m] as int, trigger, linked.len()),
            flag,
        ).contains(second_level(linked, connected, trigger, flag, i)[k]),
    decreases i,
{
    let c = connected[i - 1];
    let rest = second_level(linked, connected, trigger, flag, (i - 1) as nat);
    let tail = keep_flagged(neighbours(linked[c as int], c as int, trigger, linked.len()), flag);
    let all = second_level(linked, connected, trigger, flag, i);
    assert(all == rest + tail);
    if k < rest.len() {
        assert(all[k] == rest[k]);
        lemma_second_level_origin(linked, connected, trigger, flag, (i - 1) as nat, k)
    } else {
        assert(all[k] == tail[k - rest.len()]);
        (i - 1) as int
    }
}

/// Which aspects a cascade reaches, and at which depth: an aspect is on the
/// path at depth 0 exactly when the trigger links to it and it moved
/// strongly; every aspect that a direct link `c` of the trigger links to
/// (other than `c` and the trigger) and that moved moderately is on the path
/// at depth 1; and every depth-1 entry moved moderately and is linked from a
/// direct link of the trigger.
pub proof fn lemma_cascade_reach_members(
    linked: Seq<Seq<bool>>,
    trigger: int,
    strong: Seq<bool>,
    moderate: Seq<bool>,
)
    requires
        linked.len() <= usize::MAX,
        0 <= trigger < linked.len(),
    ensures
        forall|j: int|
            #![trigger linked[trigger][j]]
            0 <= j < linked.len() ==> (cascade_reach(linked, trigger, strong, moderate).contains(
                (j as usize, 0u8),
            ) <==> (linked[trigger][j] && j != trigger && strong[j])),
        forall|c: int, j: int|
            #![trigger linked[trigger][c], linked[c][j]]
            0 <= c < linked.len() && 0 <= j < linked.len() && linked[trigger][c] && c != trigger
                && linked[c][j] && j != c && j != trigger && moderate[j] ==> cascade_reach(
                linked,
                trigger,
                strong,
                moderate,
            ).contains((j as usize, 1u8)),
        forall|i: int|
            0 <= i < cascade_reach(linked, trigger, strong, moderate).len() && (#[trigger] cascade_reach(
                linked,
                trigger,
                strong,
                moderate,
            )[i]).1 == 1 ==> {
                let x = cascade_reach(linked, trigger, strong, moderate)[i].0 as int;
                &&& moderate[x]
                &&& exists|c: int|
                    #![trigger linked[c][x]]
                    0 <= c < linked.len() && linked[trigger][c] && c != trigger && linked[c][x] && x
                        != c
            },
{
    let n = linked.len();
    let connected = neighbours(linked[trigger], trigger, trigger, n);
    let first = keep_flagged(connected, strong);
    let second = second_level(linked, connected, trigger, moderate, connected.len());
    let path = cascade_reach(linked, trigger, strong, moderate);
    assert(path == at_depth(first, 0) + at_depth(second, 1));
    lemma_neighbours_skip(linked[trigger], trigger, trigger, n);
    lemma_neighbours_complete(linked[trigger], trigger, trigger, n);
    lemma_neighbours_bounded(linked[trigger], trigger, trigger, n);
    lemma_keep_flagged_subset(connected, strong);
    lemma_keep_flagged_complete(connected, strong);
    assert forall|j: int|
        #![trigger linked[trigger][j]]
        0 <= j < n implies (path.contains((j as usize, 0u8)) <==> (linked[trigger][j] && j
            != trigger && strong[j])) by {
        if linked[trigger][j] && j != trigger && strong[j] {
            assert(connected.contains(j as usize));
            assert(first.contains(j as usize));
            let idx: int = choose|idx: int| 0 <= idx < first.len() && first[idx] == j as usize;
            assert(path[idx] == (j as usize, 0u8));
        }
        if path.contains((j as usize, 0u8)) {
            let i: int = choose|i: int| 0 <= i < path.len() && path[i] == (j as usize, 0u8);
            if i >= first.len() {
                assert(path[i] == (second[i - first.len()], 1u8));
            } else {
                assert(path[i] == (first[i], 0u8));
                assert(connected.contains(first[i]) && strong[first[i] as int]);
                let q: int = choose|q: int| 0 <= q < connected.len() && connected[q] == first[i];
                assert(connected[q] != trigger && linked[trigger][connected[q] as int]);
            }
        }
    }
    assert forall|c: int, j: int|
        #![trigger linked[trigger][c], linked[c][j]]
        0 <= c < n && 0 <= j < n && linked[trigger][c] && c != trigger && linked[c][j] && j != c
            && j != trigger && moderate[j] implies path.contains((j as usize, 1u8)) by {
        assert(connected.contains(c as usize));
        let m: int = choose|m: int| 0 <= m < connected.len() && connected[m] == c as usize;
        let nb = neighbours(linked[c], c, trigger, n);
        lemma_neighbours_complete(linked[c], c, trigger, n);
        assert(nb.contains(j as usize));
        lemma_keep_flagged_complete(nb, moderate);
        assert(keep_flagged(nb, moderate).contains(j as usize));
        lemma_second_level_includes(linked, connected, trigger, moderate, connected.len(), m, j as usize);
        let idx: int = choose|idx: int| 0 <= idx < second.len() && second[idx] == j as usize;
        assert(path[first.len() + idx] == (j as usize, 1u8));
    }
    assert forall|i: int|
        0 <= i < path.len() && (#[trigger] path[i]).1 == 1 implies {
            let x = path[i].0 as int;
            &&& moderate[x]
            &&& exists|c: int|
                #![trigger linked[c][x]]
                0 <= c < n && linked[trigger][c] && c != trigger && linked[c][x] && x != c
        } by {
        if i < first.len() {
            assert(path[i] == (first[i], 0u8));
        } else {
            let k = i - first.len();
            assert(path[i] == (second[k], 1u8));
            let m = lemma_second_level_origin(linked, connected, trigger, moderate, connected.len(), k);
            let c = connected[m];
            let nb = neighbours(linked[c as int], c as int, trigger, n);
            lemma_keep_flagged_subset(nb, moderate);
            lemma_neighbours_skip(linked[c as int], c as int, trigger, n);
            let kf = keep_flagged(nb, moderate);
            let p: int = choose|p: int| 0 <= p < kf.len() && kf[p] == second[k];
            assert(nb.contains(kf[p]) && moderate[kf[p] as int]);
            let q: int = choose|q: int| 0 <= q < nb.len() && nb[q] == kf[p];
            assert(nb[q] != c && linked[c as int][nb[q] as int]);
            assert(connected[m] < n);
            assert(connected[m] != trigger && linked[trigger][connected[m] as int]);
            let x = path[i].0 as int;
            assert(x == second[k] as int);
            assert(moderate[x]);
            assert(0 <= c < n && linked[trigger][c as int] && c != trigger && linked[c as int][x] && x
                != c);
        }
    }
}

/// The indices `j` of `row`, ascending, with `row[j]` set and `j` neither
/// `skip_a` nor `skip_b`.
fn linked_indices(row: &Vec<bool>, skip_a: usize, skip_b: usize) -> (out: Vec<usize>)
    ensures
        out@ == neighbours(row@, skip_a as int, skip_b as int, row@.len()),
{
    let mut out: Vec<usize> = Vec::new();
    let mut j: usize = 0;
    while j < row.len()
        invariant
            j <= row@.len(),
            out@ == neighbours(row@, skip_a as int, skip_b as int, j as nat),
        decreases row@.len() - j,
    {
        if row[j] && j != skip_a && j != skip_b {
            out.push(j);
        }
        j = j + 1;
    }
    out
}

/// Appends to `out`, in order, the entries of `s` whose flag is set, each
/// paired with `depth`.
fn push_flagged(out: &mut Vec<(usize, u8)>, s: &Vec<usize>, flag: &Vec<bool>, depth: u8)
    requires
        forall|i: int| 0 <= i < s@.len() ==> #[trigger] s@[i] < flag@.len(),
    ensures
        final(out)@ == old(out)@ + at_depth(keep_flagged(s@, flag@), depth),
{
    let ghost start: Seq<(usize, u8)> = old(out)@;
    let mut i: usize = 0;
    while i < s.len()
        invariant
            i <= s@.len(),
            forall|k: int| 0 <= k < s@.len() ==> #[trigger] s@[k] < flag@.len(),
            out@ == start + at_depth(keep_flagged(s@.take(i as int), flag@), depth),
        decreases s@.len() - i,
    {
        let j: usize = s[i];
        proof {
            let t = s@.take(i as int + 1);
            assert(t.drop_last() =~= s@.take(i as int));
            assert(t.last() == j);
        }
        if flag[j] {
            out.push((j, depth));
            assert(at_depth(keep_flagged(s@.take(i as int + 1), flag@), depth) =~= at_depth(
                keep_flagged(s@.take(i as int), flag@),
                depth,
            ).push((j, depth)));
        }
        i = i + 1;
    }
    assert(s@.take(s@.len() as int) =~= s@);
}

/// The path of a cascade from `trigger` through the interrelation graph
/// `linked` (`linked[i][j]`: aspect `i` influences aspect `j`), given which
/// aspects moved strongly and which moderately: the aspects reached, each
/// with its depth (0 for direct links, 1 for second links), in the order
/// `cascade_reach` lists them.
pub fn cascade_path(
    linked: &Vec<Vec<bool>>,
    trigger: usize,
    strong: &Vec<bool>,
    moderate: &Vec<bool>,
) -> (path: Vec<(usize, u8)>)
    requires
        trigger < linked@.len(),
        forall|i: int| 0 <= i < linked@.len() ==> (#[trigger] linked@[i])@.len() == linked@.len(),
        strong@.len() == linked@.len(),
        moderate@.len() == linked@.len(),
    ensures
        path@ == cascade_reach(
            linked@.map_values(|r: Vec<bool>| r@),
            trigger as int,
            strong@,
            moderate@,
        ),
{
    let ghost rows: Seq<Seq<bool>> = linked@.map_values(|r: Vec<bool>| r@);
    let n: usize = linked.len();
    let connected: Vec<usize> = linked_indices(&linked[trigger], trigger, trigger);
    proof {
        assert(rows[trigger as int] == linked@[trigger as int]@);
        lemma_neighbours_bounded(rows[trigger as int], trigger as int, trigger as int, n as nat);
    }
    let mut path: Vec<(usize, u8)> = Vec::new();
    push_flagged(&mut path, &connected, strong, 0);
    assert(path@ =~= at_depth(keep_flagged(connected@, strong@), 0));
    let ghost first: Seq<(usize, u8)> = path@;
    let mut i: usize = 0;
    while i < connected.len()
        invariant
            i <= connected@.len(),
            n == linked@.len(),
            rows == linked@.map_values(|r: Vec<bool>| r@),
            forall|k: int| 0 <= k < linked@.len() ==> (#[trigger] linked@[k])@.len() == n,
            moderate@.len() == n,
            trigger < n,
            forall|k: int| 0 <= k < connected@.len() ==> #[trigger] connected@[k] < n,
            path@ == first + at_depth(
                second_level(rows, connected@, trigger as int, moderate@, i as nat),
                1,
            ),
        decreases connected@.len() - i,
    {
        let c: usize = connected[i];
        let second: Vec<usize> = linked_indices(&linked[c], c, trigger);
        proof {
            assert(rows[c as int] == linked@[c as int]@);
            lemma_neighbours_bounded(rows[c as int], c as int, trigger as int, n as nat);
        }
        let ghost before: Seq<(usize, u8)> = path@;
        push_flagged(&mut path, &second, moderate, 1);
        assert(at_depth(second_level(rows, connected@, trigger as int, moderate@, i as nat + 1), 1)
            =~= at_depth(second_level(rows, connected@, trigger as int, moderate@, i as nat), 1)
            + at_depth(keep_flagged(second@, moderate@), 1));
        i = i + 1;
    }
    path
}

} // verus!
