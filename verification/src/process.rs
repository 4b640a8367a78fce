//! Which applications are using the processor.
//!
//! Processes are read from `/proc`, grouped by their name and ranked by the
//! CPU time they have used.

use crate::quantity::{Quantity, TEN_BITS};
use crate::text::{parse_number, starts_with, trim, word_at};
use vstd::prelude::*;
use vstd::string::StrSliceExecFns;

verus! {

use crate::binary::{quotient, sum, whole};

/// The most applications that are listed.
pub const MAX_LISTED: usize = 12;

/// The files of one entry of `/proc`.
pub struct ProcessFiles {
    /// The name of the entry, where it is text.
    pub entry: Option<String>,
    pub comm: Option<String>,
    pub stat: Option<String>,
    pub status: Option<String>,
}

/// One process.
pub struct Process {
    pub pid: u32,
    pub name: String,
    /// CPU ticks spent in user code.
    pub user_ticks: u64,
    /// CPU ticks spent in the kernel.
    pub system_ticks: u64,
    /// The resident memory in kilobytes, as the kernel writes it.
    pub resident_kb: Option<String>,
}

/// The number that the word of `s` at position `n` writes, zero where there
/// is none.
pub open spec fn field_number(s: Seq<char>, n: int) -> nat {
    match crate::text::nth_word(s, n) {
        Some(w) => match crate::text::number(w, u64::MAX as nat) {
            Some(x) => x,
            None => 0,
        },
        None => 0,
    }
}

fn number_field(s: &str, n: usize) -> (r: u64)
    ensures
        r == field_number(s@, n as int),
{
    match word_at(s, n) {
        Some(w) => match parse_number(w, u64::MAX) {
            Some(x) => x,
            None => 0,
        },
        None => 0,
    }
}

/// Where the line that `s` begins with ends: before its first line feed, or
/// with `s`.
pub open spec fn line_end(s: Seq<char>) -> int
    decreases s.len(),
{
    if s.len() == 0 || s.first() == '\n' {
        0
    } else {
        1 + line_end(s.drop_first())
    }
}

/// The second word of the first line of `s` that starts with "VmRSS:".
pub open spec fn resident_field(s: Seq<char>) -> Option<Seq<char>>
    decreases s.len(),
{
    if s.len() == 0 {
        None
    } else {
        let end = line_end(s);
        if crate::text::begins(s.take(end), "VmRSS:"@) {
            crate::text::nth_word(s.take(end), 1)
        } else if 0 <= end < s.len() {
            resident_field(s.skip(end + 1))
        } else {
            None
        }
    }
}

proof fn lemma_line_end(s: Seq<char>)
    ensures
        0 <= line_end(s) <= s.len(),
        line_end(s) < s.len() ==> s[line_end(s)] == '\n',
        forall|i: int| 0 <= i < line_end(s) ==> s[i] != '\n',
    decreases s.len(),
{
    if s.len() > 0 && s.first() != '\n' {
        lemma_line_end(s.drop_first());
        let n = line_end(s.drop_first());
        if n < s.drop_first().len() {
            assert(s.drop_first()[n] == s[n + 1]);
        }
        assert forall|i: int| 0 <= i < line_end(s) implies s[i] != '\n' by {
            if i > 0 {
                assert(s.drop_first()[i - 1] == s[i]);
            }
        }
    }
}

pub(crate) proof fn lemma_line_end_is(s: Seq<char>, n: int)
    requires
        0 <= n <= s.len(),
        n < s.len() ==> s[n] == '\n',
        forall|i: int| 0 <= i < n ==> s[i] != '\n',
    ensures
        line_end(s) == n,
{
    lemma_line_end(s);
    let m = line_end(s);
    if m < n {
        assert(s[m] == '\n');
    }
    if n < m {
        assert(s[n] == '\n');
    }
}

fn resident_kb<'a>(status: &'a str) -> (r: Option<&'a str>)
    ensures
        match r {
            Some(w) => resident_field(status@) == Some(w@),
            None => resident_field(status@) is None,
        },
{
    let c = crate::text::chars_of(status);
    let mut from: usize = 0;
    assert(status@.skip(0) =~= status@);
    while from < c.len()
        invariant
            from <= c.len(),
            c@ == status@,
            resident_field(status@) == resident_field(status@.skip(from as int)),
        decreases c.len() - from,
    {
        let mut to: usize = from;
        while to < c.len() && c[to] != '\n'
            invariant
                from <= to <= c.len(),
                c@ == status@,
                forall|i: int| from <= i < to ==> c@[i] != '\n',
            decreases c.len() - to,
        {
            to += 1;
        }
        let ghost rest = status@.skip(from as int);
        proof {
            assert forall|i: int| 0 <= i < to - from implies rest[i] != '\n' by {
                assert(rest[i] == c@[from + i]);
            }
            lemma_line_end_is(rest, to - from);
        }
        let line = status.substring_char(from, to);
        assert(line@ =~= rest.take(to - from));
        if starts_with(line, "VmRSS:") {
            return word_at(line, 1);
        }
        if to == c.len() {
            return None;
        }
        assert(rest.skip(to - from + 1) =~= status@.skip(to + 1));
        from = to + 1;
    }
    None
}

/// Whether `p` is the process that the files describe.
pub open spec fn describes(f: ProcessFiles, p: Process) -> bool {
    let stat = crate::files::file_text(f.stat);
    &&& f.entry matches Some(e) && crate::text::number(e@, u32::MAX as nat) == Some(p.pid as nat)
    &&& f.comm matches Some(c) && p.name@ == crate::text::trimmed(c@)
    &&& p.user_ticks == field_number(stat, 13)
    &&& p.system_ticks == field_number(stat, 14)
    &&& match p.resident_kb {
        Some(kb) => f.status matches Some(s) && resident_field(crate::text::trimmed(s@)) == Some(
            kb@,
        ),
        None => f.status matches Some(s) ==> resident_field(crate::text::trimmed(s@)) is None,
    }
}

/// Whether an entry of `/proc` is a process that can be read: its name is a
/// process number and it says what it is called.
pub open spec fn is_process(f: ProcessFiles) -> bool {
    &&& f.entry matches Some(e) && crate::text::number(e@, u32::MAX as nat) is Some
    &&& f.comm is Some
}

/// The process that the files of an entry describe.
pub fn read_process(files: &ProcessFiles) -> (r: Option<Process>)
    ensures
        match r {
            Some(p) => is_process(*files) && describes(*files, p),
            None => !is_process(*files),
        },
{
    let pid: u32 = match &files.entry {
        Some(e) => match parse_number(e.as_str(), u32::MAX as u64) {
            Some(n) => n as u32,
            None => {
                return None;
            },
        },
        None => {
            return None;
        },
    };
    let name = match &files.comm {
        Some(c) => trim(c.as_str()).to_owned(),
        None => {
            return None;
        },
    };
    let stat = crate::files::text_or_empty(&files.stat);
    let resident = match &files.status {
        Some(s) => match resident_kb(trim(s.as_str())) {
            Some(w) => Some(w.to_owned()),
            None => None,
        },
        None => None,
    };
    Some(
        Process {
            pid,
            name,
            user_ticks: number_field(stat.as_str(), 13),
            system_ticks: number_field(stat.as_str(), 14),
            resident_kb: resident,
        },
    )
}

// Grouping by name.

/// The processes of one name.
pub struct ProcessGroup {
    pub name: String,
    pub pids: Vec<u32>,
    pub cpu_ticks: u64,
    pub memory_mb: Quantity,
}

/// The process numbers of the processes called `name`, in order.
pub open spec fn pids_of(p: Seq<Process>, name: Seq<char>) -> Seq<u32>
    decreases p.len(),
{
    if p.len() == 0 {
        Seq::empty()
    } else {
        let before = pids_of(p.drop_last(), name);
        if p.last().name@ == name {
            before.push(p.last().pid)
        } else {
            before
        }
    }
}

/// The CPU ticks of the processes called `name`, added up.
pub open spec fn ticks_of(p: Seq<Process>, name: Seq<char>) -> nat
    decreases p.len(),
{
    if p.len() == 0 {
        0
    } else {
        let before = ticks_of(p.drop_last(), name);
        if p.last().name@ == name {
            before + p.last().user_ticks as nat + p.last().system_ticks as nat
        } else {
            before
        }
    }
}

/// The megabytes of the processes called `name`, added up. `kb` is the
/// resident memory of each process in kilobytes.
pub open spec fn memory_of(p: Seq<Process>, kb: Seq<Quantity>, name: Seq<char>) -> Quantity
    decreases p.len(),
{
    if p.len() == 0 {
        Quantity { bits: 0 }
    } else {
        let before = memory_of(p.drop_last(), kb, name);
        if p.last().name@ == name {
            sum(before, quotient(kb[p.len() - 1], whole(1024)))
        } else {
            before
        }
    }
}

/// The names of the processes, each once, in the order they first appear.
pub open spec fn names_of(p: Seq<Process>) -> Seq<Seq<char>>
    decreases p.len(),
{
    if p.len() == 0 {
        Seq::empty()
    } else {
        let before = names_of(p.drop_last());
        if before.contains(p.last().name@) {
            before
        } else {
            before.push(p.last().name@)
        }
    }
}

/// Whether `t` is the group of the processes called `name`.
pub open spec fn gathers(
    t: ProcessGroup,
    p: Seq<Process>,
    kb: Seq<Quantity>,
    name: Seq<char>,
) -> bool {
    &&& t.name@ == name
    &&& t.pids@ == pids_of(p, name)
    &&& t.cpu_ticks == ticks_of(p, name)
    &&& t.memory_mb == memory_of(p, kb, name)
}

/// Whether `t` is the group of every name among the processes, in the order
/// the names first appear.
pub open spec fn are_groups(t: Seq<ProcessGroup>, p: Seq<Process>, kb: Seq<Quantity>) -> bool {
    &&& t.len() == names_of(p).len()
    &&& forall|i: int| 0 <= i < t.len() ==> gathers(#[trigger] t[i], p, kb, names_of(p)[i])
}

proof fn lemma_unseen(p: Seq<Process>, kb: Seq<Quantity>, name: Seq<char>)
    requires
        !names_of(p).contains(name),
    ensures
        pids_of(p, name).len() == 0,
        ticks_of(p, name) == 0,
        memory_of(p, kb, name) == (Quantity { bits: 0 }),
    decreases p.len(),
{
    if p.len() > 0 {
        let rest = p.drop_last();
        if names_of(rest).contains(name) {
            let k = choose|k: int| 0 <= k < names_of(rest).len() && names_of(rest)[k] == name;
            assert(names_of(p)[k] == name);
        }
        lemma_unseen(rest, kb, name);
        if p.last().name@ == name {
            if !names_of(rest).contains(name) {
                assert(names_of(p).last() == name);
            }
        }
    }
}

proof fn lemma_ticks_grow(p: Seq<Process>, n: int, name: Seq<char>)
    requires
        0 <= n <= p.len(),
    ensures
        ticks_of(p.take(n), name) <= ticks_of(p, name),
    decreases p.len() - n,
{
    if n == p.len() {
        assert(p.take(n) =~= p);
    } else {
        lemma_ticks_grow(p, n + 1, name);
        assert(p.take(n + 1).drop_last() =~= p.take(n));
    }
}

/// Every name stands once among the names, and every process has its name
/// there.
pub proof fn names_stand_once(p: Seq<Process>)
    ensures
        forall|i: int, j: int|
            0 <= i < j < names_of(p).len() ==> names_of(p)[i] != names_of(p)[j],
        forall|k: int| 0 <= k < p.len() ==> names_of(p).contains((#[trigger] p[k]).name@),
    decreases p.len(),
{
    if p.len() > 0 {
        let rest = p.drop_last();
        names_stand_once(rest);
        let before = names_of(rest);
        let all = names_of(p);
        assert forall|k: int| 0 <= k < p.len() implies all.contains((#[trigger] p[k]).name@) by {
            if k < rest.len() {
                assert(rest[k] == p[k]);
                let w = choose|w: int| 0 <= w < before.len() && before[w] == p[k].name@;
                assert(all[w] == p[k].name@);
            } else if before.contains(p.last().name@) {
            } else {
                assert(all.last() == p.last().name@);
            }
        }
        assert forall|i: int, j: int| 0 <= i < j < all.len() implies all[i] != all[j] by {
            if j == before.len() {
                assert(all[i] == before[i]);
            }
        }
    }
}

/// Groups the processes by name, in the order the names first appear.
pub fn group_processes(p: &Vec<Process>, kb: &Vec<Quantity>) -> (r: Vec<ProcessGroup>)
    requires
        kb.len() == p.len(),
        forall|k: int|
            0 <= k < p.len() ==> ticks_of(p@, (#[trigger] p@[k]).name@) <= u64::MAX,
    ensures
        are_groups(r@, p@, kb@),
{
    let mut out: Vec<ProcessGroup> = Vec::new();
    let mut i: usize = 0;
    assert(p@.take(0) =~= Seq::<Process>::empty());
    while i < p.len()
        invariant
            i <= p.len(),
            kb.len() == p.len(),
            are_groups(out@, p@.take(i as int), kb@),
            forall|k: int|
                0 <= k < p.len() ==> ticks_of(p@, (#[trigger] p@[k]).name@) <= u64::MAX,
        decreases p.len() - i,
    {
        let ghost done = p@.take(i as int);
        let ghost next = p@.take(i + 1);
        let ghost names = names_of(done);
        let ghost before = out@;
        assert(next.drop_last() =~= done);
        assert(next.last() == p@[i as int]);
        let ghost name = p@[i as int].name@;
        proof {
            lemma_ticks_grow(p@, i + 1, name);
            assert(ticks_of(p@, p@[i as int].name@) <= u64::MAX);
        }
        let mut at: usize = 0;
        while at < out.len() && !(out[at].name == p[i].name)
            invariant
                at <= out.len(),
                i < p.len(),
                out@ == before,
                names == names_of(done),
                are_groups(before, done, kb@),
                name == p@[i as int].name@,
                forall|j: int| 0 <= j < at ==> #[trigger] names[j] != name,
            decreases out.len() - at,
        {
            assert(gathers(out@[at as int], done, kb@, names[at as int]));
            at += 1;
        }
        if at < out.len() {
            assert(gathers(out@[at as int], done, kb@, names[at as int]));
            assert(names[at as int] == name);
            assert(names.contains(name));
            assert(names_of(next) == names);
            let mut t = out.remove(at);
            assert(t == before[at as int]);
            t.pids.push(p[i].pid);
            t.memory_mb = t.memory_mb.plus(kb[i].over(Quantity::of(1024)));
            assert(t.cpu_ticks + p@[i as int].user_ticks + p@[i as int].system_ticks
                == ticks_of(next, name));
            t.cpu_ticks = t.cpu_ticks + p[i].user_ticks + p[i].system_ticks;
            out.insert(at, t);
            assert forall|j: int| 0 <= j < out.len() implies gathers(
                #[trigger] out@[j],
                next,
                kb@,
                names_of(next)[j],
            ) by {
                assert(gathers(before[j], done, kb@, names[j]));
                if j == at {
                    assert(out@[j].pids@ =~= pids_of(next, name));
                } else {
                    assert(out@[j] == before[j]);
                    names_stand_once(done);
                    assert(names[j] != name);
                }
            }
        } else {
            assert(!names.contains(name)) by {
                if names.contains(name) {
                    let k = choose|k: int| 0 <= k < names.len() && names[k] == name;
                    assert(names[k] != name);
                }
            }
            proof {
                lemma_unseen(done, kb@, name);
            }
            let mut pids: Vec<u32> = Vec::new();
            pids.push(p[i].pid);
            let memory_mb = Quantity::zero().plus(kb[i].over(Quantity::of(1024)));
            assert(memory_of(done, kb@, name) == (Quantity { bits: 0 }));
            assert(p@[i as int].user_ticks + p@[i as int].system_ticks == ticks_of(next, name));
            out.push(
                ProcessGroup {
                    name: p[i].name.clone(),
                    pids,
                    cpu_ticks: p[i].user_ticks + p[i].system_ticks,
                    memory_mb,
                },
            );
            assert forall|j: int| 0 <= j < out.len() implies gathers(
                #[trigger] out@[j],
                next,
                kb@,
                names_of(next)[j],
            ) by {
                if j < before.len() {
                    assert(gathers(before[j], done, kb@, names[j]));
                    assert(names[j] != name);
                    assert(names_of(next)[j] == names[j]);
                } else {
                    assert(out@[j].pids@ =~= pids_of(next, name));
                }
            }
        }
        i += 1;
    }
    assert(p@.take(p.len() as int) =~= p@);
    out
}

// Ranking.

/// Whether a group is large enough to be shown: more than ten megabytes.
pub open spec fn is_large(t: ProcessGroup) -> bool {
    (Quantity { bits: TEN_BITS }).less(t.memory_mb)
}

/// Positions in falling order of CPU time, with `x` put behind every one
/// that has used as much.
pub open spec fn slotted(order: Seq<usize>, t: Seq<ProcessGroup>, x: usize) -> Seq<usize>
    decreases order.len(),
{
    if order.len() == 0 || t[order.last() as int].cpu_ticks >= t[x as int].cpu_ticks {
        order.push(x)
    } else {
        slotted(order.drop_last(), t, x).push(order.last())
    }
}

/// The positions of the large groups among the first `n`, in falling order of
/// CPU time, groups with equal time in the order they were found.
pub open spec fn ranking(t: Seq<ProcessGroup>, n: nat) -> Seq<usize>
    decreases n,
{
    if n == 0 {
        Seq::empty()
    } else {
        let before = ranking(t, (n - 1) as nat);
        if is_large(t[n - 1]) {
            slotted(before, t, (n - 1) as usize)
        } else {
            before
        }
    }
}

/// Whether the positions are distinct, below `n`, and in falling order of CPU
/// time, equal times in rising order.
pub open spec fn is_ranked(order: Seq<usize>, t: Seq<ProcessGroup>, n: int) -> bool {
    &&& forall|i: int| 0 <= i < order.len() ==> (#[trigger] order[i]) < n
    &&& forall|i: int, j: int|
        #![trigger order[i], order[j]]
        0 <= i < j < order.len() ==> {
            let a = t[order[i] as int].cpu_ticks;
            let b = t[order[j] as int].cpu_ticks;
            a > b || (a == b && order[i] < order[j])
        }
}

proof fn lemma_slotted(order: Seq<usize>, t: Seq<ProcessGroup>, x: usize)
    requires
        is_ranked(order, t, x as int),
    ensures
        slotted(order, t, x).len() == order.len() + 1,
        is_ranked(slotted(order, t, x), t, x + 1),
        forall|y: usize|
            #[trigger] slotted(order, t, x).contains(y) <==> order.contains(y) || y == x,
        order.len() > 0 && t[order.last() as int].cpu_ticks < t[x as int].cpu_ticks ==> slotted(
            order,
            t,
            x,
        ).last() == order.last(),
    decreases order.len(),
{
    let all = slotted(order, t, x);
    if order.len() == 0 || t[order.last() as int].cpu_ticks >= t[x as int].cpu_ticks {
        assert forall|y: usize| #[trigger] all.contains(y) <==> order.contains(y) || y == x by {
            if order.contains(y) {
                let k = choose|k: int| 0 <= k < order.len() && order[k] == y;
                assert(all[k] == y);
            }
            if y == x {
                assert(all[order.len() as int] == y);
            }
        }
        assert forall|i: int, j: int|
            #![trigger all[i], all[j]]
            0 <= i < j < all.len() implies {
            let a = t[all[i] as int].cpu_ticks;
            let b = t[all[j] as int].cpu_ticks;
            a > b || (a == b && all[i] < all[j])
        } by {
            assert(all[i] == order[i]);
            if j < order.len() {
                assert(all[j] == order[j]);
            } else {
                let last = order.len() - 1;
                if i < last {
                    assert(order[i] < x && order[last] < x);
                }
            }
        }
    } else {
        let rest = order.drop_last();
        assert(is_ranked(rest, t, x as int)) by {
            assert forall|i: int, j: int|
                #![trigger rest[i], rest[j]]
                0 <= i < j < rest.len() implies {
                let a = t[rest[i] as int].cpu_ticks;
                let b = t[rest[j] as int].cpu_ticks;
                a > b || (a == b && rest[i] < rest[j])
            } by {
                assert(rest[i] == order[i] && rest[j] == order[j]);
            }
        }
        lemma_slotted(rest, t, x);
        let p = slotted(rest, t, x);
        assert(all == p.push(order.last()));
        assert forall|y: usize| #[trigger] all.contains(y) <==> order.contains(y) || y == x by {
            if all.contains(y) {
                let k = choose|k: int| 0 <= k < all.len() && all[k] == y;
                if k < p.len() {
                    assert(p[k] == y);
                    assert(p.contains(y));
                    if rest.contains(y) {
                        let w = choose|w: int| 0 <= w < rest.len() && rest[w] == y;
                        assert(order[w] == y);
                    }
                } else {
                    assert(order[order.len() - 1] == y);
                }
            }
            if order.contains(y) {
                let k = choose|k: int| 0 <= k < order.len() && order[k] == y;
                if k < rest.len() {
                    assert(rest[k] == y);
                    assert(p.contains(y));
                    let w = choose|w: int| 0 <= w < p.len() && p[w] == y;
                    assert(all[w] == y);
                } else {
                    assert(all[p.len() as int] == y);
                }
            }
            if y == x {
                assert(p.contains(y));
                let w = choose|w: int| 0 <= w < p.len() && p[w] == y;
                assert(all[w] == y);
            }
        }
        assert forall|i: int, j: int|
            #![trigger all[i], all[j]]
            0 <= i < j < all.len() implies {
            let a = t[all[i] as int].cpu_ticks;
            let b = t[all[j] as int].cpu_ticks;
            a > b || (a == b && all[i] < all[j])
        } by {
            assert(all[i] == p[i]);
            if j < p.len() {
                assert(all[j] == p[j]);
            } else {
                assert(p.contains(p[i]));
                if p[i] != x {
                    let w = choose|w: int| 0 <= w < rest.len() && rest[w] == p[i];
                    assert(order[w] == p[i]);
                    assert(order[order.len() - 1] == order.last());
                }
            }
        }
        assert forall|i: int| 0 <= i < all.len() implies (#[trigger] all[i]) < x + 1 by {
            if i < p.len() {
                assert(all[i] == p[i]);
            } else {
                assert(all[i] == order[order.len() - 1]);
            }
        }
    }
}

/// The ranking holds every large group once and no other, the busiest first.
pub proof fn ranking_is_of_the_large(t: Seq<ProcessGroup>, n: nat)
    requires
        n <= usize::MAX,
    ensures
        is_ranked(ranking(t, n), t, n as int),
        forall|y: usize|
            #[trigger] ranking(t, n).contains(y) <==> y < n && is_large(t[y as int]),
    decreases n,
{
    if n > 0 {
        let m = (n - 1) as nat;
        ranking_is_of_the_large(t, m);
        let before = ranking(t, m);
        if is_large(t[n - 1]) {
            lemma_slotted(before, t, m as usize);
        }
    }
}

/// How many of the large groups are listed.
pub open spec fn listed(t: Seq<ProcessGroup>) -> int {
    if ranking(t, t.len()).len() < MAX_LISTED {
        ranking(t, t.len()).len() as int
    } else {
        MAX_LISTED as int
    }
}

/// A group that is listed has used at least as much CPU time as any large
/// group that is not.
pub proof fn the_busiest_are_listed(t: Seq<ProcessGroup>, i: int, x: usize)
    requires
        t.len() <= usize::MAX,
        0 <= i < listed(t),
        x < t.len(),
        is_large(t[x as int]),
        !ranking(t, t.len()).take(listed(t)).contains(x),
    ensures
        t[ranking(t, t.len())[i] as int].cpu_ticks >= t[x as int].cpu_ticks,
{
    let order = ranking(t, t.len());
    ranking_is_of_the_large(t, t.len());
    assert(order.contains(x));
    let k = choose|k: int| 0 <= k < order.len() && order[k] == x;
    if k < listed(t) {
        assert(order.take(listed(t))[k] == x);
    }
    assert(i < k);
    assert(order[i] == order[i] && order[k] == x);
}

/// Whether two groups are the same.
pub open spec fn is_same(g: ProcessGroup, t: ProcessGroup) -> bool {
    &&& g.name@ == t.name@
    &&& g.pids@ == t.pids@
    &&& g.cpu_ticks == t.cpu_ticks
    &&& g.memory_mb == t.memory_mb
}

fn ranked_positions(t: &Vec<ProcessGroup>) -> (r: Vec<usize>)
    ensures
        r@ == ranking(t@, t.len() as nat),
{
    let mut order: Vec<usize> = Vec::new();
    let mut i: usize = 0;
    while i < t.len()
        invariant
            i <= t.len(),
            order@ == ranking(t@, i as nat),
            forall|k: int| 0 <= k < order.len() ==> (#[trigger] order[k]) < t.len(),
        decreases t.len() - i,
    {
        if t[i].memory_mb.is_above(TEN_BITS) {
            let ghost sorted = order@;
            let mut at: usize = order.len();
            assert(sorted.take(at as int) =~= sorted);
            assert(slotted(sorted, t@, i) =~= slotted(sorted.take(at as int), t@, i) + sorted.skip(
                at as int,
            ));
            while at > 0 && t[order[at - 1]].cpu_ticks < t[i].cpu_ticks
                invariant
                    at <= order.len(),
                    i < t.len(),
                    order@ == sorted,
                    forall|k: int| 0 <= k < order.len() ==> (#[trigger] order[k]) < t.len(),
                    slotted(sorted, t@, i) == slotted(sorted.take(at as int), t@, i) + sorted.skip(
                        at as int,
                    ),
                decreases at,
            {
                let ghost head = sorted.take(at as int);
                assert(head.last() == sorted[at - 1]);
                assert(head.drop_last() =~= sorted.take(at - 1));
                assert(slotted(head.drop_last(), t@, i).push(head.last()) + sorted.skip(at as int)
                    =~= slotted(head.drop_last(), t@, i) + sorted.skip(at - 1));
                at -= 1;
            }
            assert(slotted(sorted.take(at as int), t@, i) == sorted.take(at as int).push(i)) by {
                if at > 0 {
                    assert(sorted.take(at as int).last() == sorted[at - 1]);
                }
            }
            order.insert(at, i);
            assert(order@ =~= sorted.take(at as int).push(i) + sorted.skip(at as int));
        }
        i += 1;
    }
    order
}

/// Whether `r` lists the groups `t` as they are shown: those of more than ten
/// megabytes, the busiest first, at most twelve.
pub open spec fn lists(r: Seq<ProcessGroup>, t: Seq<ProcessGroup>) -> bool {
    &&& r.len() == listed(t)
    &&& forall|i: int|
        0 <= i < r.len() ==> {
            let at = ranking(t, t.len())[i] as int;
            0 <= at < t.len() && is_same(#[trigger] r[i], t[at])
        }
}

/// The groups worth showing: those of more than ten megabytes, the busiest
/// first, at most twelve.
pub fn busiest(t: &Vec<ProcessGroup>) -> (r: Vec<ProcessGroup>)
    ensures
        lists(r@, t@),
{
    let order = ranked_positions(t);
    let n = t.len();
    proof {
        assert(t@.len() == n);
        ranking_is_of_the_large(t@, t@.len());
    }
    let mut out: Vec<ProcessGroup> = Vec::new();
    while out.len() < order.len() && out.len() < MAX_LISTED
        invariant
            out.len() <= order.len(),
            out.len() <= MAX_LISTED,
            order@ == ranking(t@, t.len() as nat),
            is_ranked(order@, t@, t.len() as int),
            forall|i: int|
                0 <= i < out.len() ==> {
                    let at = order@[i] as int;
                    0 <= at < t.len() && is_same(#[trigger] out[i], t@[at])
                },
        decreases order.len() - out.len(),
    {
        let at = order[out.len()];
        assert(order@[out.len() as int] == at);
        let pids = t[at].pids.clone();
        assert(pids@ =~= t[at as int].pids@);
        out.push(
            ProcessGroup {
                name: t[at].name.clone(),
                pids,
                cpu_ticks: t[at].cpu_ticks,
                memory_mb: t[at].memory_mb,
            },
        );
    }
    out
}

/// The applications worth showing. `kb` is the resident memory of each
/// process in kilobytes.
pub fn active_processes(p: &Vec<Process>, kb: &Vec<Quantity>) -> (r: Vec<ProcessGroup>)
    requires
        kb.len() == p.len(),
        forall|k: int|
            0 <= k < p.len() ==> ticks_of(p@, (#[trigger] p@[k]).name@) <= u64::MAX,
    ensures
        exists|t: Seq<ProcessGroup>| #[trigger] are_groups(t, p@, kb@) && lists(r@, t),
{
    let groups = group_processes(p, kb);
    busiest(&groups)
}

} // verus!
