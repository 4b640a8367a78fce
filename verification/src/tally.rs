//! What a group of processes adds up to.

use crate::folds::{abouts_are_off_by_little, folds_measure};
use crate::measures::{abouts_cancel, quotients_measure, wholes_measure};
use crate::process::{Process, ProcessGroup};
use crate::quantity::{Quantity, TEN_BITS};
use vstd::prelude::*;

verus! {

use crate::binary::{
    is_finite, one_in_units, order_is_that_of_values, quotient, size, small_wholes_are_exact, value,
    whole,
};
use crate::folds::{added_up, extent, extent_of, is_off_by, total_of};
use crate::precision::power_units;
use crate::readings::is_measured;
use crate::process::{
    are_groups, gathers, is_large, is_same, lists, memory_of, names_of, pids_of, ranking, ticks_of,
};

/// The processes called `name`, in order.
pub open spec fn called(p: Seq<Process>, name: Seq<char>) -> Seq<Process> {
    p.filter(|x: Process| x.name@ == name)
}

/// The ticks of each process, those of user code and those of the kernel.
pub open spec fn ticks_each(p: Seq<Process>) -> Seq<int> {
    p.map_values(|x: Process| x.user_ticks + x.system_ticks)
}

/// The number of each process.
pub open spec fn pids_each(p: Seq<Process>) -> Seq<u32> {
    p.map_values(|x: Process| x.pid)
}

proof fn groups_add_up(p: Seq<Process>, name: Seq<char>)
    ensures
        ticks_of(p, name) == total_of(ticks_each(called(p, name))),
        pids_of(p, name) == pids_each(called(p, name)),
    decreases p.len(),
{
    reveal(Seq::filter);
    let all = called(p, name);
    if p.len() == 0 {
        assert(ticks_each(all) =~= Seq::<int>::empty());
        assert(pids_each(all) =~= Seq::<u32>::empty());
    } else {
        let rest = called(p.drop_last(), name);
        groups_add_up(p.drop_last(), name);
        if p.last().name@ == name {
            assert(all =~= rest.push(p.last()));
            assert(ticks_each(all).drop_last() =~= ticks_each(rest));
            assert(pids_each(all) =~= pids_each(rest).push(p.last().pid));
        }
    }
}

/// A group counts the user ticks and the system ticks of every process of its
/// name, and has the number of each.
pub proof fn groups_hold_every_process(
    t: Seq<ProcessGroup>,
    p: Seq<Process>,
    kb: Seq<Quantity>,
    i: int,
)
    requires
        are_groups(t, p, kb),
        0 <= i < t.len(),
    ensures
        t[i].cpu_ticks == total_of(ticks_each(called(p, t[i].name@))),
        t[i].pids@ == pids_each(called(p, t[i].name@)),
        t[i].pids.len() > 0,
{
    assert(gathers(t[i], p, kb, names_of(p)[i]));
    groups_add_up(p, t[i].name@);
    names_have_a_process(p, i);
}

proof fn names_have_a_process(p: Seq<Process>, i: int)
    requires
        0 <= i < names_of(p).len(),
    ensures
        pids_of(p, names_of(p)[i]).len() > 0,
    decreases p.len(),
{
    if p.len() > 0 {
        let rest = p.drop_last();
        if i < names_of(rest).len() {
            names_have_a_process(rest, i);
        }
    }
}

/// Every process stands in one group, that of its name.
pub proof fn every_process_has_its_group(
    t: Seq<ProcessGroup>,
    p: Seq<Process>,
    kb: Seq<Quantity>,
    k: int,
) -> (i: int)
    requires
        are_groups(t, p, kb),
        0 <= k < p.len(),
    ensures
        0 <= i < t.len(),
        t[i].name@ == p[k].name@,
        t[i].pids@.contains(p[k].pid),
        t[i].cpu_ticks >= p[k].user_ticks + p[k].system_ticks,
        forall|j: int| 0 <= j < t.len() && j != i ==> (#[trigger] t[j]).name@ != p[k].name@,
{
    crate::process::names_stand_once(p);
    assert(names_of(p).contains(p[k].name@));
    let i = choose|i: int| 0 <= i < names_of(p).len() && names_of(p)[i] == p[k].name@;
    assert(gathers(t[i], p, kb, names_of(p)[i]));
    counted_where_it_stands(p, k);
    assert forall|j: int| 0 <= j < t.len() && j != i implies (#[trigger] t[j]).name@
        != p[k].name@ by {
        assert(gathers(t[j], p, kb, names_of(p)[j]));
    }
    i
}

proof fn counted_where_it_stands(p: Seq<Process>, k: int)
    requires
        0 <= k < p.len(),
    ensures
        pids_of(p, p[k].name@).contains(p[k].pid),
        ticks_of(p, p[k].name@) >= p[k].user_ticks + p[k].system_ticks,
    decreases p.len(),
{
    let rest = p.drop_last();
    let name = p[k].name@;
    if k < rest.len() {
        assert(rest[k] == p[k]);
        counted_where_it_stands(rest, k);
        let w = choose|w: int|
            0 <= w < pids_of(rest, name).len() && pids_of(rest, name)[w] == p[k].pid;
        assert(pids_of(p, name)[w] == p[k].pid);
    } else {
        let n = pids_of(rest, name).len() as int;
        assert(pids_of(p, name)[n] == p[k].pid);
    }
}

/// One more process adds its user ticks and its system ticks to the group of
/// its name, and nothing to any other.
pub proof fn a_process_adds_its_ticks(p: Seq<Process>, x: Process, name: Seq<char>)
    ensures
        ticks_of(p.push(x), x.name@) == ticks_of(p, x.name@) + x.user_ticks + x.system_ticks,
        name != x.name@ ==> ticks_of(p.push(x), name) == ticks_of(p, name),
        pids_of(p.push(x), x.name@) == pids_of(p, x.name@).push(x.pid),
        name != x.name@ ==> pids_of(p.push(x), name) == pids_of(p, name),
{
    assert(p.push(x).drop_last() =~= p);
}

proof fn ticks_without_one(p: Seq<Process>, k: int, name: Seq<char>)
    requires
        0 <= k < p.len(),
    ensures
        ticks_of(p, name) == ticks_of(p.remove(k), name) + if p[k].name@ == name {
            p[k].user_ticks + p[k].system_ticks
        } else {
            0
        },
    decreases p.len(),
{
    let rest = p.drop_last();
    if k < rest.len() {
        ticks_without_one(rest, k, name);
        assert(p.remove(k).drop_last() =~= rest.remove(k));
        assert(p.remove(k).last() == p.last());
    } else {
        assert(p.remove(k) =~= rest);
    }
}

/// The ticks of a name do not depend on the order of the processes.
pub proof fn ticks_are_the_same_in_any_order(p: Seq<Process>, q: Seq<Process>, name: Seq<char>)
    requires
        p.to_multiset() == q.to_multiset(),
    ensures
        ticks_of(p, name) == ticks_of(q, name),
    decreases p.len(),
{
    broadcast use vstd::seq_lib::group_to_multiset_ensures;

    assert(p.to_multiset().len() == p.len() && q.to_multiset().len() == q.len());
    if p.len() > 0 {
        let x = p.last();
        assert(p.contains(x));
        assert(q.to_multiset().count(x) > 0);
        assert(q.contains(x));
        let k = choose|k: int| 0 <= k < q.len() && q[k] == x;
        let (a, b) = (p.remove(p.len() - 1), q.remove(k));
        assert(a.to_multiset() =~= b.to_multiset());
        ticks_are_the_same_in_any_order(a, b, name);
        ticks_without_one(p, p.len() - 1, name);
        ticks_without_one(q, k, name);
    }
}

proof fn names_are_of_processes(p: Seq<Process>, i: int) -> (k: int)
    requires
        0 <= i < names_of(p).len(),
    ensures
        0 <= k < p.len(),
        p[k].name@ == names_of(p)[i],
    decreases p.len(),
{
    let rest = p.drop_last();
    if i < names_of(rest).len() {
        names_are_of_processes(rest, i)
    } else {
        p.len() - 1
    }
}

/// Whatever the order of the processes, there is a group of each name and it
/// has the same ticks.
pub proof fn groups_are_the_same_in_any_order(
    t: Seq<ProcessGroup>,
    p: Seq<Process>,
    kb: Seq<Quantity>,
    u: Seq<ProcessGroup>,
    q: Seq<Process>,
    kb_other: Seq<Quantity>,
    i: int,
) -> (j: int)
    requires
        are_groups(t, p, kb),
        are_groups(u, q, kb_other),
        p.to_multiset() == q.to_multiset(),
        0 <= i < t.len(),
    ensures
        0 <= j < u.len(),
        u[j].name@ == t[i].name@,
        u[j].cpu_ticks == t[i].cpu_ticks,
{
    broadcast use vstd::seq_lib::group_to_multiset_ensures;

    assert(gathers(t[i], p, kb, names_of(p)[i]));
    let k = names_are_of_processes(p, i);
    assert(p.contains(p[k]));
    assert(q.to_multiset().count(p[k]) > 0);
    assert(q.contains(p[k]));
    let w = choose|w: int| 0 <= w < q.len() && q[w] == p[k];
    let j = every_process_has_its_group(u, q, kb_other, w);
    assert(gathers(u[j], q, kb_other, names_of(q)[j]));
    ticks_are_the_same_in_any_order(p, q, t[i].name@);
    j
}

/// The ticks of two lots of processes add up.
pub proof fn ticks_of_two_lots_add_up(p: Seq<Process>, q: Seq<Process>, name: Seq<char>)
    ensures
        ticks_of(p + q, name) == ticks_of(p, name) + ticks_of(q, name),
    decreases q.len(),
{
    if q.len() == 0 {
        assert(p + q =~= p);
    } else {
        ticks_of_two_lots_add_up(p, q.drop_last(), name);
        assert((p + q).drop_last() =~= p + q.drop_last());
    }
}

/// Whether a quantity is a reading of memory in kilobytes.
pub open spec fn is_kilobytes(q: Quantity) -> bool {
    q.bits == 0 || is_measured(q)
}

/// The kilobytes of each process called `name`.
pub open spec fn kilobytes_each(p: Seq<Process>, kb: Seq<Quantity>, name: Seq<char>) -> Seq<int>
    decreases p.len(),
{
    if p.len() == 0 {
        Seq::empty()
    } else if p.last().name@ == name {
        kilobytes_each(p.drop_last(), kb, name).push(value(kb[p.len() - 1]))
    } else {
        kilobytes_each(p.drop_last(), kb, name)
    }
}

spec fn megabytes_each(p: Seq<Process>, kb: Seq<Quantity>, name: Seq<char>) -> Seq<Quantity>
    decreases p.len(),
{
    if p.len() == 0 {
        Seq::empty()
    } else if p.last().name@ == name {
        megabytes_each(p.drop_last(), kb, name).push(quotient(kb[p.len() - 1], whole(1024)))
    } else {
        megabytes_each(p.drop_last(), kb, name)
    }
}

proof fn kilobytes_measure(q: Quantity)
    requires
        is_kilobytes(q),
    ensures
        ({
            let m = quotient(q, whole(1024));
            &&& is_finite(m)
            &&& size(m) <= power_units(253)
            &&& is_off_by(value(m) * 1024, value(q), extent(value(q)), 4)
        }),
{
    let one = one_in_units() as int;
    small_wholes_are_exact(1);
    small_wholes_are_exact(1024);
    let m = quotient(q, whole(1024));
    if q.bits == 0 {
        crate::binary::nothing_is_zero();
        crate::binary::parts_of_nothing_are_nothing(whole(1024));
        crate::measures::powers_rise(253, 253);
        crate::binary::only_zeros_have_no_size(m);
    } else {
        wholes_measure(1024);
        quotients_measure(q, whole(1024), 200, 53);
        let (a, b) = (size(m) as int, size(q) as int);
        assert(a * (1024 * one) == (a * 1024) * one) by (nonlinear_arith);
        abouts_cancel(a * 1024, b, one, 2);
        abouts_are_off_by_little(a * 1024, b, 2);
    }
}

proof fn groups_fold_memory(p: Seq<Process>, kb: Seq<Quantity>, name: Seq<char>)
    requires
        p.len() <= kb.len(),
        forall|k: int| 0 <= k < p.len() ==> is_kilobytes(#[trigger] kb[k]),
    ensures
        memory_of(p, kb, name) == added_up(megabytes_each(p, kb, name)),
        megabytes_each(p, kb, name).len() == kilobytes_each(p, kb, name).len() <= p.len(),
        forall|i: int|
            #![trigger megabytes_each(p, kb, name)[i]]
            0 <= i < megabytes_each(p, kb, name).len() ==> {
                let m = megabytes_each(p, kb, name)[i];
                let d = kilobytes_each(p, kb, name)[i];
                &&& is_finite(m)
                &&& size(m) <= power_units(253)
                &&& is_off_by(value(m) * 1024, d, extent(d), 4)
            },
    decreases p.len(),
{
    if p.len() > 0 {
        groups_fold_memory(p.drop_last(), kb, name);
        if p.last().name@ == name {
            kilobytes_measure(kb[p.len() - 1]);
            let all = megabytes_each(p, kb, name);
            assert(all.drop_last() =~= megabytes_each(p.drop_last(), kb, name));
        }
    }
}

/// The memory of a group is the kilobytes of every process of its name, over
/// 1024.
pub proof fn group_memory_adds_up(
    t: Seq<ProcessGroup>,
    p: Seq<Process>,
    kb: Seq<Quantity>,
    i: int,
)
    requires
        are_groups(t, p, kb),
        0 <= i < t.len(),
        p.len() <= kb.len(),
        p.len() <= crate::folds::MOST_TERMS,
        forall|k: int| 0 <= k < p.len() ==> is_kilobytes(#[trigger] kb[k]),
    ensures
        is_finite(t[i].memory_mb),
        is_off_by(
            value(t[i].memory_mb) * 1024,
            total_of(kilobytes_each(p, kb, t[i].name@)),
            extent_of(kilobytes_each(p, kb, t[i].name@)),
            10 * kilobytes_each(p, kb, t[i].name@).len(),
        ),
{
    assert(gathers(t[i], p, kb, names_of(p)[i]));
    let name = t[i].name@;
    groups_fold_memory(p, kb, name);
    folds_measure(megabytes_each(p, kb, name), kilobytes_each(p, kb, name), 1024, 4, 253);
}

/// A group is shown from more than ten megabytes on.
pub proof fn ten_megabytes_make_a_group_large(t: ProcessGroup)
    requires
        is_finite(t.memory_mb),
    ensures
        is_large(t) <==> value(t.memory_mb) > 10 * one_in_units(),
{
    vstd::arithmetic::power2::lemma2_to64();
    crate::exact::patterns_are_at(TEN_BITS, 0x14_0000_0000_0000, 3, 10);
    order_is_that_of_values(Quantity { bits: TEN_BITS }, t.memory_mb);
}

/// No more than twelve groups are listed, all of them large, in falling order
/// of their ticks; a large group is left out only behind twelve that have
/// used no less.
pub proof fn the_list_is_of_the_busiest(r: Seq<ProcessGroup>, t: Seq<ProcessGroup>)
    requires
        lists(r, t),
        t.len() <= usize::MAX,
    ensures
        r.len() <= 12,
        forall|i: int| 0 <= i < r.len() ==> is_large(#[trigger] r[i]),
        forall|i: int, j: int|
            #![trigger r[i], r[j]]
            0 <= i <= j < r.len() ==> r[i].cpu_ticks >= r[j].cpu_ticks,
        forall|x: int|
            0 <= x < t.len() && is_large(#[trigger] t[x]) ==> {
                ||| exists|i: int| 0 <= i < r.len() && is_same(#[trigger] r[i], t[x])
                ||| r.len() == 12 && r.last().cpu_ticks >= t[x].cpu_ticks
            },
{
    let order = ranking(t, t.len());
    crate::process::ranking_is_of_the_large(t, t.len());
    assert forall|i: int| 0 <= i < r.len() implies is_large(#[trigger] r[i]) by {
        assert(order.contains(order[i]));
    }
    assert forall|i: int, j: int|
        #![trigger r[i], r[j]]
        0 <= i <= j < r.len() implies r[i].cpu_ticks >= r[j].cpu_ticks by {
        assert(is_same(r[i], t[order[i] as int]) && is_same(r[j], t[order[j] as int]));
    }
    assert forall|x: int| 0 <= x < t.len() && is_large(#[trigger] t[x]) implies {
        ||| exists|i: int| 0 <= i < r.len() && is_same(#[trigger] r[i], t[x])
        ||| r.len() == 12 && r.last().cpu_ticks >= t[x].cpu_ticks
    } by {
        let y = x as usize;
        assert(order.contains(y));
        let k = choose|k: int| 0 <= k < order.len() && order[k] == y;
        if k < r.len() {
            assert(is_same(r[k], t[x]));
        } else {
            let last = r.len() - 1;
            assert(is_same(r[last], t[order[last] as int]));
            assert(order[last] == order[last] && order[k] == y);
        }
    }
}

} // verus!
