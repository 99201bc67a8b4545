//! How much memory and processor time a process uses together with all that it
//! started, and what the system says of single processes.

use std::collections::HashMap;
use vstd::prelude::*;
use vstd::string::*;

use crate::text::{
    self, chars_of, decimal_of, has_prefix, last_position, lines_of, parse_number, position,
    skip_chars, take_chars, trim_chars, words_of,
};

verus! {

broadcast use vstd::std_specs::hash::group_hash_axioms;

// ---------------------------------------------------------------------------
// The tree

/// What is known of one process.
#[derive(Debug, Clone, Copy, PartialEq, Eq, Structural)]
pub struct ProcInfo {
    /// The process that started it.
    pub ppid: u32,
    /// The memory that it holds.
    pub rss_bytes: u64,
    /// Its share of that memory, where memory that several processes hold is
    /// divided among them; `None` if it is not known.
    pub pss_bytes: Option<u64>,
    /// The processor time that it has used, in nanoseconds; `None` if it is not
    /// known.
    pub cpu_nanos: Option<u128>,
}

/// Whether `n` steps from a process to the one that started it, or fewer, lead to
/// `root`.
pub open spec fn leads_to(
    processes: Map<u32, ProcInfo>,
    root: u32,
    pid: u32,
    n: nat,
) -> bool
    decreases n,
{
    pid == root || (n > 0 && processes.contains_key(pid) && leads_to(
        processes,
        root,
        processes[pid].ppid,
        (n - 1) as nat,
    ))
}

/// Whether a process is `root`, or was started by it or by one that is.
pub open spec fn is_in_tree(processes: Map<u32, ProcInfo>, root: u32, pid: u32) -> bool {
    exists|n: nat| leads_to(processes, root, pid, n)
}

/// Whether `tree` lists each process of the tree of `root` once, `root` first.
pub open spec fn is_tree(processes: Map<u32, ProcInfo>, root: u32, tree: Seq<u32>) -> bool {
    &&& tree.len() > 0
    &&& tree[0] == root
    &&& tree.no_duplicates()
    &&& forall|pid: u32| #[trigger] tree.contains(pid) <==> is_in_tree(processes, root, pid)
}

proof fn lemma_closed_holds_the_tree(
    processes: Map<u32, ProcInfo>,
    root: u32,
    tree: Seq<u32>,
    pid: u32,
    n: nat,
)
    requires
        tree.contains(root),
        forall|p: u32| #[trigger]
            processes.contains_key(p) && tree.contains(processes[p].ppid) ==> tree.contains(p),
        leads_to(processes, root, pid, n),
    ensures
        tree.contains(pid),
    decreases n,
{
    if pid != root {
        lemma_closed_holds_the_tree(
            processes,
            root,
            tree,
            processes[pid].ppid,
            (n - 1) as nat,
        );
    }
}

/// Whether a process comes among the pairs of a map from an index on.
spec fn comes_from(pairs: Seq<(&u32, &ProcInfo)>, from: int, pid: u32) -> bool {
    exists|i: int| from <= i < pairs.len() && *(#[trigger] pairs[i]).0 == pid
}

/// Whether `tree` lists processes of the tree of `root`, each once, `root` first.
spec fn is_part_of_tree(processes: Map<u32, ProcInfo>, root: u32, tree: Seq<u32>) -> bool {
    &&& tree.len() > 0
    &&& tree[0] == root
    &&& tree.no_duplicates()
    &&& forall|i: int| 0 <= i < tree.len() ==> is_in_tree(processes, root, #[trigger] tree[i])
    &&& forall|i: int|
        0 < i < tree.len() ==> processes.contains_key(#[trigger] tree[i])
}

proof fn lemma_part_grows(processes: Map<u32, ProcInfo>, root: u32, tree: Seq<u32>, pid: u32)
    requires
        is_part_of_tree(processes, root, tree),
        !tree.contains(pid),
        processes.contains_key(pid),
        exists|i: int| 0 <= i < tree.len() && #[trigger] tree[i] == processes[pid].ppid,
    ensures
        is_part_of_tree(processes, root, tree.push(pid)),
{
    let i = choose|i: int| 0 <= i < tree.len() && #[trigger] tree[i] == processes[pid].ppid;
    assert(is_in_tree(processes, root, tree[i]));
    let n = choose|n: nat| leads_to(processes, root, tree[i], n);
    assert(leads_to(processes, root, pid, n + 1));
    let longer = tree.push(pid);
    assert forall|a: int, b: int| 0 <= a < longer.len() && 0 <= b < longer.len() && a
        != b implies longer[a] != longer[b] by {
        if a < tree.len() && b < tree.len() {
            assert(tree[a] != tree[b]);
        } else if a < tree.len() {
            assert(tree.contains(tree[a]));
        } else {
            assert(tree.contains(tree[b]));
        }
    }
}

proof fn lemma_tree_size(processes: Map<u32, ProcInfo>, root: u32, tree: Seq<u32>)
    requires
        is_part_of_tree(processes, root, tree),
        processes.dom().finite(),
    ensures
        tree.len() <= processes.dom().len() + 1,
{
    let all = processes.dom().insert(root);
    tree.unique_seq_to_set();
    assert(tree.to_set().subset_of(all)) by {
        assert forall|p: u32| tree.to_set().contains(p) implies all.contains(p) by {
            let i = tree.index_of(p);
            assert(tree[i] == p);
        }
    }
    vstd::set_lib::lemma_len_subset(tree.to_set(), all);
}

fn is_listed(tree: &Vec<u32>, pid: u32) -> (r: bool)
    ensures
        r == tree@.contains(pid),
{
    for i in 0..tree.len()
        invariant
            forall|j: int| 0 <= j < i ==> tree@[j] != pid,
    {
        if tree[i] == pid {
            assert(tree@.contains(pid));
            return true;
        }
    }
    false
}

/// A process and all that it started, directly or not: `root` first, the others in
/// no order that means anything.
pub fn collect_descendants(root: u32, processes: &HashMap<u32, ProcInfo>) -> (r: Vec<u32>)
    ensures
        is_tree(processes@, root, r@),
{
    let mut links: Vec<(u32, u32)> = Vec::new();
    for (pid, info) in it: processes.iter()
        invariant
            it.seq().len() == processes@.dom().len(),
            forall|i: int|
                0 <= i < it.seq().len() ==> processes@.contains_key(*(#[trigger] it.seq()[i]).0)
                    && processes@[*it.seq()[i].0] == *it.seq()[i].1,
            forall|p: u32| #[trigger]
                processes@.contains_key(p) ==> it.seq().contains((&p, &processes@[p])),
            links@.len() == it.index(),
            forall|i: int|
                0 <= i < links@.len() ==> #[trigger] links@[i] == (
                    *it.seq()[i].0,
                    it.seq()[i].1.ppid,
                ),
            forall|i: int|
                0 <= i < links@.len() ==> processes@.contains_key((#[trigger] links@[i]).0)
                    && processes@[links@[i].0].ppid == links@[i].1,
            forall|p: u32| #[trigger]
                processes@.contains_key(p) ==> links@.contains((p, processes@[p].ppid))
                    || comes_from(it.seq(), it.index(), p),
    {
        let ghost before = links@;
        links.push((*pid, info.ppid));
        proof {
            assert forall|p: u32| #[trigger] processes@.contains_key(p) implies links@.contains(
                (p, processes@[p].ppid),
            ) || comes_from(it.seq(), it.index() + 1, p) by {
                let link = (p, processes@[p].ppid);
                if before.contains(link) {
                    assert(links@[before.index_of(link)] == link);
                } else {
                    let i = choose|i: int|
                        it.index() <= i < it.seq().len() && *(#[trigger] it.seq()[i]).0 == p;
                    if i == it.index() {
                        assert(links@[i] == link);
                    }
                }
            }
        }
    }
    proof {
        assert forall|p: u32| #[trigger] processes@.contains_key(p) implies links@.contains(
            (p, processes@[p].ppid),
        ) by {}
    }
    let mut tree: Vec<u32> = Vec::new();
    tree.push(root);
    assert(leads_to(processes@, root, root, 0));
    let mut next: usize = 0;
    while next < tree.len()
        invariant
            forall|i: int|
                0 <= i < links@.len() ==> processes@.contains_key((#[trigger] links@[i]).0)
                    && processes@[links@[i].0].ppid == links@[i].1,
            forall|p: u32| #[trigger]
                processes@.contains_key(p) ==> links@.contains((p, processes@[p].ppid)),
            next <= tree@.len(),
            is_part_of_tree(processes@, root, tree@),
            forall|p: u32| #[trigger]
                processes@.contains_key(p) && tree@.take(next as int).contains(processes@[p].ppid)
                    ==> tree@.contains(p),
        decreases processes@.dom().len() + 1 - next,
    {
        let parent: u32 = tree[next];
        let ghost done = tree@.take(next as int);
        let ghost before = tree@;
        for k in 0..links.len()
            invariant
                forall|i: int|
                    0 <= i < links@.len() ==> processes@.contains_key((#[trigger] links@[i]).0)
                        && processes@[links@[i].0].ppid == links@[i].1,
                next < before.len(),
                before.is_prefix_of(tree@),
                parent == before[next as int],
                is_part_of_tree(processes@, root, tree@),
                forall|i: int|
                    0 <= i < k && (#[trigger] links@[i]).1 == parent ==> tree@.contains(
                        links@[i].0,
                    ),
        {
            let (pid, ppid): (u32, u32) = links[k];
            if ppid == parent && !is_listed(&tree, pid) {
                let ghost shorter = tree@;
                tree.push(pid);
                proof {
                    assert(shorter[next as int] == parent);
                    lemma_part_grows(processes@, root, shorter, pid);
                    assert forall|q: u32| shorter.contains(q) implies #[trigger] tree@.contains(
                        q,
                    ) by {
                        assert(tree@[shorter.index_of(q)] == q);
                    }
                    assert(tree@[shorter.len() as int] == pid);
                }
            }
        }
        proof {
            assert(tree@[next as int] == before[next as int]);
            assert(tree@.take(next + 1) =~= done.push(parent));
            assert forall|p: u32| #[trigger]
                processes@.contains_key(p) && tree@.take(next + 1).contains(
                    processes@[p].ppid,
                ) implies tree@.contains(p) by {
                let ppid = processes@[p].ppid;
                assert(links@.contains((p, ppid)));
                if ppid == parent {
                    let i = links@.index_of((p, ppid));
                    assert(links@[i].1 == parent);
                } else {
                    let j = done.push(parent).index_of(ppid);
                    assert(done[j] == ppid);
                    assert(done.contains(ppid));
                    assert(before.contains(p));
                    assert(tree@[before.index_of(p)] == p);
                }
            }
            lemma_tree_size(processes@, root, tree@);
        }
        next = next + 1;
    }
    proof {
        assert(tree@.take(tree@.len() as int) =~= tree@);
        assert(tree@.contains(root)) by {
            assert(tree@[0] == root);
        }
        assert forall|pid: u32| #[trigger] tree@.contains(pid) <==> is_in_tree(
            processes@,
            root,
            pid,
        ) by {
            if tree@.contains(pid) {
                let i = tree@.index_of(pid);
                assert(is_in_tree(processes@, root, tree@[i]));
            }
            if is_in_tree(processes@, root, pid) {
                let n = choose|n: nat| leads_to(processes@, root, pid, n);
                lemma_closed_holds_the_tree(processes@, root, tree@, pid, n);
            }
        }
    }
    tree
}

// ---------------------------------------------------------------------------
// Samples

/// What a process and all that it started use.
#[derive(Debug, Clone, Copy, PartialEq, Eq, Structural)]
pub struct RssSample {
    pub root_pid: u32,
    /// How many processes there are.
    pub process_count: usize,
    /// The memory that they hold. What several hold counts once for each.
    pub total_rss_bytes: u64,
    /// Their shares of that memory; `None` if no process's share is known. Only
    /// those that are known count.
    pub total_pss_bytes: Option<u64>,
    /// Of how many processes the share is known.
    pub pss_process_count: usize,
    /// The processor time that they have used, in nanoseconds; `None` if no
    /// process's is known. A process that ends takes its time with it.
    pub total_cpu_nanos: Option<u128>,
}

/// Why there is no sample.
#[derive(Debug, Clone, PartialEq, Eq)]
pub enum RssError {
    /// There is no such process.
    ProcessNotFound(u32),
    /// The system did not say, and why.
    Io(String),
    /// Nobody knows how to ask this system.
    Unsupported,
}

impl RssError {
    /// What went wrong, in words.
    pub open spec fn words(&self) -> Seq<char> {
        match self {
            RssError::ProcessNotFound(pid) => "process "@ + text::decimal(*pid as nat)
                + " not found"@,
            RssError::Io(reason) => "I/O error reading process info: "@ + reason@,
            RssError::Unsupported => "RSS sampling is not implemented on this platform"@,
        }
    }

    /// What went wrong, in words.
    pub fn message(&self) -> (r: String)
        ensures
            r@ == self.words(),
    {
        match self {
            RssError::ProcessNotFound(pid) => {
                let mut r = "process ".to_owned();
                r.append(&decimal_of(*pid as u128));
                r.append(" not found");
                r
            },
            RssError::Io(reason) => {
                let mut r = "I/O error reading process info: ".to_owned();
                r.append(reason);
                r
            },
            RssError::Unsupported => {
                "RSS sampling is not implemented on this platform".to_owned()
            },
        }
    }
}

/// The sum of an amount over processes.
pub open spec fn total(tree: Seq<u32>, amount: spec_fn(u32) -> nat) -> nat
    decreases tree.len(),
{
    if tree.len() == 0 {
        0
    } else {
        total(tree.drop_last(), amount) + amount(tree.last())
    }
}

/// How much memory a process holds.
pub open spec fn rss_of(processes: Map<u32, ProcInfo>) -> spec_fn(u32) -> nat {
    |pid: u32| processes[pid].rss_bytes as nat
}

/// A process's share of memory, as far as it is known.
pub open spec fn pss_of(processes: Map<u32, ProcInfo>) -> spec_fn(u32) -> nat {
    |pid: u32|
        match processes[pid].pss_bytes {
            Some(pss) => pss as nat,
            None => 0,
        }
}

/// 1 for a process whose share is known, 0 for another.
pub open spec fn pss_known(processes: Map<u32, ProcInfo>) -> spec_fn(u32) -> nat {
    |pid: u32|
        if processes[pid].pss_bytes is Some {
            1nat
        } else {
            0
        }
}

/// A process's processor time, as far as it is known.
pub open spec fn cpu_of(processes: Map<u32, ProcInfo>) -> spec_fn(u32) -> nat {
    |pid: u32|
        match processes[pid].cpu_nanos {
            Some(cpu) => cpu as nat,
            None => 0,
        }
}

/// 1 for a process whose processor time is known, 0 for another.
pub open spec fn cpu_known(processes: Map<u32, ProcInfo>) -> spec_fn(u32) -> nat {
    |pid: u32|
        if processes[pid].cpu_nanos is Some {
            1nat
        } else {
            0
        }
}

/// The sample of the processes of a tree.
pub open spec fn sample_of(
    processes: Map<u32, ProcInfo>,
    root: u32,
    tree: Seq<u32>,
) -> RssSample {
    RssSample {
        root_pid: root,
        process_count: tree.len() as usize,
        total_rss_bytes: total(tree, rss_of(processes)) as u64,
        total_pss_bytes: if total(tree, pss_known(processes)) > 0 {
            Some(total(tree, pss_of(processes)) as u64)
        } else {
            None
        },
        pss_process_count: total(tree, pss_known(processes)) as usize,
        total_cpu_nanos: if total(tree, cpu_known(processes)) > 0 {
            Some(total(tree, cpu_of(processes)) as u128)
        } else {
            None
        },
    }
}

/// Whether what the processes of a tree use can be counted.
pub open spec fn is_countable(processes: Map<u32, ProcInfo>, tree: Seq<u32>) -> bool {
    &&& total(tree, rss_of(processes)) <= u64::MAX
    &&& total(tree, pss_of(processes)) <= u64::MAX
    &&& total(tree, cpu_of(processes)) <= u128::MAX
}

/// What a process and all that it started use.
pub fn build_sample(root_pid: u32, processes: &HashMap<u32, ProcInfo>) -> (r: Result<
    RssSample,
    RssError,
>)
    requires
        forall|tree: Seq<u32>| #[trigger]
            is_tree(processes@, root_pid, tree) ==> is_countable(processes@, tree),
    ensures
        match r {
            Ok(sample) => processes@.contains_key(root_pid) && exists|tree: Seq<u32>| #[trigger]
                is_tree(processes@, root_pid, tree) && sample == sample_of(
                    processes@,
                    root_pid,
                    tree,
                ),
            Err(e) => !processes@.contains_key(root_pid) && e == RssError::ProcessNotFound(
                root_pid,
            ),
        },
{
    if !processes.contains_key(&root_pid) {
        return Err(RssError::ProcessNotFound(root_pid));
    }
    let tree = collect_descendants(root_pid, processes);
    let ghost map = processes@;
    let mut rss: u64 = 0;
    let mut pss: u64 = 0;
    let mut pss_count: usize = 0;
    let mut cpu: u128 = 0;
    let mut cpu_count: usize = 0;
    for i in 0..tree.len()
        invariant
            map == processes@,
            is_tree(map, root_pid, tree@),
            map.contains_key(root_pid),
            is_countable(map, tree@),
            rss == total(tree@.take(i as int), rss_of(map)),
            pss == total(tree@.take(i as int), pss_of(map)),
            pss_count == total(tree@.take(i as int), pss_known(map)),
            cpu == total(tree@.take(i as int), cpu_of(map)),
            cpu_count == total(tree@.take(i as int), cpu_known(map)),
            pss_count <= i,
            cpu_count <= i,
    {
        let pid: u32 = tree[i];
        proof {
            assert(tree@.contains(pid));
            lemma_members_are_known(map, root_pid, pid);
            assert(tree@.take(i + 1).drop_last() =~= tree@.take(i as int));
            lemma_total_grows(tree@, i + 1, rss_of(map));
            lemma_total_grows(tree@, i + 1, pss_of(map));
            lemma_total_grows(tree@, i + 1, cpu_of(map));
        }
        if let Some(info) = processes.get(&pid) {
            rss = rss + info.rss_bytes;
            if let Some(amount) = info.pss_bytes {
                pss = pss + amount;
                pss_count = pss_count + 1;
            }
            if let Some(amount) = info.cpu_nanos {
                cpu = cpu + amount;
                cpu_count = cpu_count + 1;
            }
        }
    }
    assert(tree@.take(tree@.len() as int) =~= tree@);
    Ok(
        RssSample {
            root_pid,
            process_count: tree.len(),
            total_rss_bytes: rss,
            total_pss_bytes: if pss_count > 0 {
                Some(pss)
            } else {
                None
            },
            pss_process_count: pss_count,
            total_cpu_nanos: if cpu_count > 0 {
                Some(cpu)
            } else {
                None
            },
        },
    )
}

proof fn lemma_members_are_known(processes: Map<u32, ProcInfo>, root: u32, pid: u32)
    requires
        is_in_tree(processes, root, pid),
        processes.contains_key(root),
    ensures
        processes.contains_key(pid),
{
    let n = choose|n: nat| leads_to(processes, root, pid, n);
    assert(leads_to(processes, root, pid, n));
}

proof fn lemma_total_grows(tree: Seq<u32>, k: int, amount: spec_fn(u32) -> nat)
    requires
        0 <= k <= tree.len(),
    ensures
        total(tree.take(k), amount) <= total(tree, amount),
    decreases tree.len() - k,
{
    if k < tree.len() {
        assert(tree.take(k + 1).drop_last() =~= tree.take(k));
        lemma_total_grows(tree, k + 1, amount);
    } else {
        assert(tree.take(k) =~= tree);
    }
}

/// The processor time that was used between two samples: `None` if it is not known
/// of either, if no time passed, or if there is less of it in the second, which
/// happens when a process has ended in between.
pub fn cpu_nanos_between(previous: &RssSample, current: &RssSample, wall_nanos: u128) -> (r: Option<
    u128,
>)
    ensures
        r == (match (previous.total_cpu_nanos, current.total_cpu_nanos) {
            (Some(before), Some(after)) => if wall_nanos > 0 && after >= before {
                Some((after - before) as u128)
            } else {
                None
            },
            _ => None,
        }),
{
    match (previous.total_cpu_nanos, current.total_cpu_nanos) {
        (Some(before), Some(after)) => {
            if wall_nanos > 0 && after >= before {
                Some(after - before)
            } else {
                None
            }
        },
        _ => None,
    }
}

/// The number that the two halves of a Windows `FILETIME` make, in units of 100
/// nanoseconds.
pub fn filetime_ticks(low: u32, high: u32) -> (r: u64)
    ensures
        r == high * 0x1_0000_0000 + low,
{
    high as u64 * 0x1_0000_0000 + low as u64
}

/// The two halves of a Windows `FILETIME` in nanoseconds.
pub fn filetime_nanos(low: u32, high: u32) -> (r: u128)
    ensures
        r == (high * 0x1_0000_0000 + low) * 100,
        r <= u64::MAX * 100,
{
    filetime_ticks(low, high) as u128 * 100
}

// ---------------------------------------------------------------------------
// What the system says

/// What `/proc/<pid>/status` says of a process.
#[derive(Debug, Clone, Copy, PartialEq, Eq, Structural)]
pub struct ProcStatus {
    /// The process that started it.
    pub ppid: u32,
    /// The memory that it holds, in kilobytes of 1024 bytes.
    pub rss_kb: u64,
}

/// How many kilobytes can be counted in bytes.
pub const MAX_KILOBYTES: u64 = 18_014_398_509_481_983;

/// A number of kilobytes in bytes.
pub fn kilobytes(kb: u64) -> (r: u64)
    requires
        kb <= MAX_KILOBYTES,
    ensures
        r == kb * 1024,
{
    kb * 1024
}

impl ProcStatus {
    /// What is known of the process so far.
    pub fn info(self) -> (r: ProcInfo)
        requires
            self.rss_kb <= MAX_KILOBYTES,
        ensures
            r == (ProcInfo {
                ppid: self.ppid,
                rss_bytes: (self.rss_kb * 1024) as u64,
                pss_bytes: None,
                cpu_nanos: None,
            }),
    {
        ProcInfo {
            ppid: self.ppid,
            rss_bytes: kilobytes(self.rss_kb),
            pss_bytes: None,
            cpu_nanos: None,
        }
    }
}

/// The number that the first word of `s` is, at most `max`.
pub open spec fn first_number(s: Seq<char>, max: nat) -> Option<nat> {
    if text::words(s).len() > 0 {
        text::parsed_number(text::words(s)[0], max)
    } else {
        None
    }
}

fn read_first_number(s: &[char], max: u64) -> (r: Option<u64>)
    ensures
        match r {
            Some(v) => first_number(s@, max as nat) == Some(v as nat),
            None => first_number(s@, max as nat) is None,
        },
{
    let words = words_of(s);
    if words.len() == 0 {
        return None;
    }
    assert(text::texts(words@)[0] == words@[0]@);
    parse_number(&words[0], max)
}

/// What stands after a key at the start of a line, if it does.
pub open spec fn after_key(line: Seq<char>, key: Seq<char>) -> Option<Seq<char>> {
    if key.is_prefix_of(line) {
        Some(line.skip(key.len() as int))
    } else {
        None
    }
}

/// The parent that the lines of `/proc/<pid>/status` give: the last line that
/// should hold it decides.
pub open spec fn status_ppid(lines: Seq<Seq<char>>) -> Option<nat>
    decreases lines.len(),
{
    if lines.len() == 0 {
        None
    } else {
        match after_key(lines.last(), "PPid:"@) {
            Some(rest) => text::parsed_number(text::trimmed(rest), u32::MAX as nat),
            None => status_ppid(lines.drop_last()),
        }
    }
}

/// The kilobytes that the lines of `/proc/<pid>/status` give: the last line that
/// should hold them decides.
pub open spec fn status_rss(lines: Seq<Seq<char>>) -> Option<nat>
    decreases lines.len(),
{
    if lines.len() == 0 {
        None
    } else {
        match after_key(lines.last(), "VmRSS:"@) {
            Some(rest) => first_number(rest, u64::MAX as nat),
            None => status_rss(lines.drop_last()),
        }
    }
}

/// Reads `/proc/<pid>/status`. `None` if it gives no parent: such a process has no
/// place in a tree. One that holds no memory, such as a zombie, has no line for it.
pub fn parse_status(contents: &str) -> (r: Option<ProcStatus>)
    ensures
        match r {
            Some(status) => status_ppid(text::lines(contents@)) == Some(status.ppid as nat)
                && status.rss_kb == (match status_rss(text::lines(contents@)) {
                Some(kb) => kb,
                None => 0,
            }),
            None => status_ppid(text::lines(contents@)) is None,
        },
{
    proof {
        reveal_strlit("PPid:");
        reveal_strlit("VmRSS:");
    }
    let lines = lines_of(&chars_of(contents));
    let ghost all = text::texts(lines@);
    let mut ppid: Option<u32> = None;
    let mut rss_kb: Option<u64> = None;
    for i in 0..lines.len()
        invariant
            all == text::texts(lines@),
            "PPid:"@.len() == 5,
            "VmRSS:"@.len() == 6,
            "PPid:"@[0] != "VmRSS:"@[0],
            match ppid {
                Some(v) => status_ppid(all.take(i as int)) == Some(v as nat),
                None => status_ppid(all.take(i as int)) is None,
            },
            match rss_kb {
                Some(v) => status_rss(all.take(i as int)) == Some(v as nat),
                None => status_rss(all.take(i as int)) is None,
            },
    {
        assert(all.take(i + 1).drop_last() =~= all.take(i as int));
        assert(all[i as int] == lines@[i as int]@);
        let line = &lines[i];
        if has_prefix(line, "PPid:") {
            let rest = skip_chars(line, 5);
            ppid = match parse_number(trim_chars(rest), u32::MAX as u64) {
                Some(v) => Some(v as u32),
                None => None,
            };
            assert(line@[0] == "PPid:"@[0]);
            assert(!"VmRSS:"@.is_prefix_of(line@)) by {
                if "VmRSS:"@.is_prefix_of(line@) {
                    assert(line@[0] == "VmRSS:"@[0]);
                }
            }
        } else if has_prefix(line, "VmRSS:") {
            let rest = skip_chars(line, 6);
            rss_kb = read_first_number(rest, u64::MAX);
        }
    }
    assert(all.take(all.len() as int) =~= all);
    match ppid {
        Some(ppid) => Some(
            ProcStatus {
                ppid,
                rss_kb: match rss_kb {
                    Some(kb) => kb,
                    None => 0,
                },
            },
        ),
        None => None,
    }
}

/// The kilobytes that the lines of `/proc/<pid>/smaps_rollup` give as a process's
/// share: the first line that should hold them decides.
pub open spec fn rollup_pss(lines: Seq<Seq<char>>, from: int) -> Option<nat>
    decreases lines.len() - from,
{
    if from >= lines.len() {
        None
    } else {
        match after_key(lines[from], "Pss:"@) {
            Some(rest) => first_number(rest, u64::MAX as nat),
            None => rollup_pss(lines, from + 1),
        }
    }
}

/// Reads a process's share of memory, in kilobytes, from
/// `/proc/<pid>/smaps_rollup`.
pub fn parse_pss_kb(contents: &str) -> (r: Option<u64>)
    ensures
        match r {
            Some(kb) => rollup_pss(text::lines(contents@), 0) == Some(kb as nat),
            None => rollup_pss(text::lines(contents@), 0) is None,
        },
{
    proof {
        reveal_strlit("Pss:");
    }
    let lines = lines_of(&chars_of(contents));
    let ghost all = text::texts(lines@);
    for i in 0..lines.len()
        invariant
            all == text::texts(lines@),
            "Pss:"@.len() == 4,
            rollup_pss(all, 0) == rollup_pss(all, i as int),
            all == text::lines(contents@),
    {
        assert(all[i as int] == lines@[i as int]@);
        let line = &lines[i];
        if has_prefix(line, "Pss:") {
            return read_first_number(skip_chars(line, 4), u64::MAX);
        }
    }
    None
}

/// The nanoseconds of a clock tick.
pub const NANOS_PER_TICK: u128 = 10_000_000;

/// The processor time in a line of `/proc/<pid>/stat`: the 12th and 13th word after
/// the process's name, in ticks. The name is in round brackets, and may hold such
/// brackets itself.
pub open spec fn stat_ticks(stat: Seq<char>) -> Option<nat> {
    match text::last_position_of(stat, ')') {
        Some(p) => {
            let fields = text::words(stat.skip(p + 1));
            if fields.len() > 12 {
                match (
                    text::parsed_number(fields[11], u64::MAX as nat),
                    text::parsed_number(fields[12], u64::MAX as nat),
                ) {
                    (Some(user), Some(system)) => Some(user + system),
                    _ => None,
                }
            } else {
                None
            }
        },
        None => None,
    }
}

/// Reads a process's processor time, in nanoseconds, from `/proc/<pid>/stat`.
pub fn parse_cpu_nanos(stat: &str) -> (r: Option<u128>)
    ensures
        match r {
            Some(nanos) => stat_ticks(stat@) is Some && nanos == stat_ticks(stat@)->0
                * NANOS_PER_TICK,
            None => stat_ticks(stat@) is None,
        },
{
    let chars = chars_of(stat);
    match last_position(&chars, ')') {
        Some(p) => {
            let fields = words_of(skip_chars(&chars, p + 1));
            if fields.len() <= 12 {
                return None;
            }
            assert(text::texts(fields@)[11] == fields@[11]@);
            assert(text::texts(fields@)[12] == fields@[12]@);
            match (parse_number(&fields[11], u64::MAX), parse_number(&fields[12], u64::MAX)) {
                (Some(user), Some(system)) => Some(
                    (user as u128 + system as u128) * NANOS_PER_TICK,
                ),
                _ => None,
            }
        },
        None => None,
    }
}

/// What a line of `ps -axo pid=,ppid=,rss=` says: a process, the one that started
/// it, and the kilobytes that it holds.
pub open spec fn ps_line(line: Seq<char>) -> Option<(u32, ProcStatus)> {
    let fields = text::words(line);
    if fields.len() < 3 {
        None
    } else {
        match (
            text::parsed_number(fields[0], u32::MAX as nat),
            text::parsed_number(fields[1], u32::MAX as nat),
            text::parsed_number(fields[2], u64::MAX as nat),
        ) {
            (Some(pid), Some(ppid), Some(rss_kb)) => Some(
                (pid as u32, ProcStatus { ppid: ppid as u32, rss_kb: rss_kb as u64 }),
            ),
            _ => None,
        }
    }
}

fn parse_ps_line(line: &[char]) -> (r: Option<(u32, ProcStatus)>)
    ensures
        r == ps_line(line@),
{
    let fields = words_of(line);
    if fields.len() < 3 {
        return None;
    }
    assert(text::texts(fields@)[0] == fields@[0]@);
    assert(text::texts(fields@)[1] == fields@[1]@);
    assert(text::texts(fields@)[2] == fields@[2]@);
    match (
        parse_number(&fields[0], u32::MAX as u64),
        parse_number(&fields[1], u32::MAX as u64),
        parse_number(&fields[2], u64::MAX),
    ) {
        (Some(pid), Some(ppid), Some(rss_kb)) => Some(
            (pid as u32, ProcStatus { ppid: ppid as u32, rss_kb }),
        ),
        _ => None,
    }
}

/// The processes that lines of `ps` list. The last line of a process counts, and
/// lines that make no sense do not.
pub open spec fn ps_processes(lines: Seq<Seq<char>>) -> Map<u32, ProcStatus>
    decreases lines.len(),
{
    if lines.len() == 0 {
        Map::empty()
    } else {
        let before = ps_processes(lines.drop_last());
        match ps_line(lines.last()) {
            Some((pid, status)) => before.insert(pid, status),
            None => before,
        }
    }
}

/// Reads what `ps -axo pid=,ppid=,rss=` prints.
pub fn parse_ps_output(output: &str) -> (r: HashMap<u32, ProcStatus>)
    ensures
        r@ == ps_processes(text::lines(output@)),
{
    let lines = lines_of(&chars_of(output));
    let ghost all = text::texts(lines@);
    let mut map: HashMap<u32, ProcStatus> = HashMap::new();
    assert(map@ =~= ps_processes(all.take(0)));
    for i in 0..lines.len()
        invariant
            all == text::texts(lines@),
            map@ == ps_processes(all.take(i as int)),
    {
        assert(all.take(i + 1).drop_last() =~= all.take(i as int));
        assert(all[i as int] == lines@[i as int]@);
        match parse_ps_line(&lines[i]) {
            Some((pid, status)) => {
                map.insert(pid, status);
            },
            None => {},
        }
    }
    assert(all.take(all.len() as int) =~= all);
    map
}

/// The bytes that a line of `/proc/meminfo` gives for the memory of the machine.
/// The unit must be kilobytes.
pub open spec fn mem_total_in(line: Seq<char>) -> Option<u64> {
    let n = text::position_of(line, ':', 0);
    let fields = text::words(line.skip(n + 1));
    if n >= line.len() || text::trimmed(line.take(n)) != "MemTotal"@ || fields.len() < 2
        || text::ascii_lower(fields[1]) != "kb"@ {
        None
    } else {
        match text::parsed_number(fields[0], u64::MAX as nat) {
            Some(kb) => if kb * 1024 <= u64::MAX {
                Some((kb * 1024) as u64)
            } else {
                None
            },
            None => None,
        }
    }
}

fn read_mem_total(line: &[char]) -> (r: Option<u64>)
    ensures
        r == mem_total_in(line@),
{
    let n: usize = position(line, ':', 0);
    if n >= line.len() || !text::is_text(trim_chars(take_chars(line, n)), "MemTotal") {
        return None;
    }
    let fields = words_of(skip_chars(line, n + 1));
    if fields.len() < 2 {
        return None;
    }
    assert(text::texts(fields@)[0] == fields@[0]@);
    assert(text::texts(fields@)[1] == fields@[1]@);
    if !text::is_text(&text::to_ascii_lower(&fields[1]), "kb") {
        return None;
    }
    match parse_number(&fields[0], u64::MAX) {
        Some(kb) => kb.checked_mul(1024),
        None => None,
    }
}

/// The first of the lines of `/proc/meminfo`, from an index on, that gives the
/// memory of the machine, and what it gives.
pub open spec fn mem_total(lines: Seq<Seq<char>>, from: int) -> Option<u64>
    decreases lines.len() - from,
{
    if from >= lines.len() {
        None
    } else {
        match mem_total_in(lines[from]) {
            Some(bytes) => Some(bytes),
            None => mem_total(lines, from + 1),
        }
    }
}

/// Reads the memory of the machine, in bytes, from `/proc/meminfo`. `None` if no
/// line gives it in kilobytes: a wrong number would be worse than none.
pub fn parse_mem_total_bytes(meminfo: &str) -> (r: Option<u64>)
    ensures
        r == mem_total(text::lines(meminfo@), 0),
{
    let lines = lines_of(&chars_of(meminfo));
    let ghost all = text::texts(lines@);
    for i in 0..lines.len()
        invariant
            all == text::texts(lines@),
            all == text::lines(meminfo@),
            mem_total(all, 0) == mem_total(all, i as int),
    {
        assert(all[i as int] == lines@[i as int]@);
        match read_mem_total(&lines[i]) {
            Some(bytes) => {
                return Some(bytes);
            },
            None => {},
        }
    }
    None
}

// ---------------------------------------------------------------------------
// Laws

/// A tree adds up to the same whatever the order of its processes.
pub proof fn the_order_does_not_matter(a: Seq<u32>, b: Seq<u32>, amount: spec_fn(u32) -> nat)
    requires
        a.no_duplicates(),
        b.no_duplicates(),
        forall|pid: u32| #[trigger] a.contains(pid) <==> b.contains(pid),
    ensures
        a.len() == b.len(),
        total(a, amount) == total(b, amount),
    decreases a.len(),
{
    if a.len() == 0 {
        if b.len() > 0 {
            assert(b.contains(b[0]));
            assert(a.contains(b[0]));
        }
    } else {
        let last = a.last();
        assert(a[a.len() - 1] == last);
        assert(a.contains(last));
        assert(b.contains(last));
        let k = b.index_of(last);
        let shorter = a.drop_last();
        let rest = b.remove(k);
        assert forall|pid: u32| #[trigger] shorter.contains(pid) <==> rest.contains(pid) by {
            if shorter.contains(pid) {
                let i = shorter.index_of(pid);
                assert(a[i] == pid);
                assert(a.contains(pid));
                assert(b.contains(pid));
                let m = b.index_of(pid);
                assert(m != k);
                assert(rest[if m < k {
                    m
                } else {
                    m - 1
                }] == pid);
            }
            if rest.contains(pid) {
                let m = rest.index_of(pid);
                assert(b[if m < k {
                    m
                } else {
                    m + 1
                }] == pid);
                assert(b.contains(pid));
                assert(a.contains(pid));
                let i = a.index_of(pid);
                assert(shorter[i] == pid);
            }
        }
        assert forall|i: int, j: int| 0 <= i < rest.len() && 0 <= j < rest.len() && i
            != j implies rest[i] != rest[j] by {
            let x = if i < k {
                i
            } else {
                i + 1
            };
            let y = if j < k {
                j
            } else {
                j + 1
            };
            assert(b[x] != b[y]);
        }
        the_order_does_not_matter(shorter, rest, amount);
        lemma_total_without(b, k, amount);
    }
}

proof fn lemma_total_without(s: Seq<u32>, k: int, amount: spec_fn(u32) -> nat)
    requires
        0 <= k < s.len(),
    ensures
        total(s, amount) == total(s.remove(k), amount) + amount(s[k]),
    decreases s.len(),
{
    if k == s.len() - 1 {
        assert(s.remove(k) =~= s.drop_last());
    } else {
        assert(s.remove(k).drop_last() =~= s.drop_last().remove(k));
        assert(s.remove(k).last() == s.last());
        lemma_total_without(s.drop_last(), k, amount);
    }
}

/// There is only one sample of a tree.
pub proof fn a_sample_is_unique(
    processes: Map<u32, ProcInfo>,
    root: u32,
    a: Seq<u32>,
    b: Seq<u32>,
)
    requires
        is_tree(processes, root, a),
        is_tree(processes, root, b),
    ensures
        sample_of(processes, root, a) == sample_of(processes, root, b),
{
    assert forall|pid: u32| #[trigger] a.contains(pid) <==> b.contains(pid) by {
        assert(a.contains(pid) <==> is_in_tree(processes, root, pid));
        assert(b.contains(pid) <==> is_in_tree(processes, root, pid));
    }
    the_order_does_not_matter(a, b, rss_of(processes));
    the_order_does_not_matter(a, b, pss_of(processes));
    the_order_does_not_matter(a, b, pss_known(processes));
    the_order_does_not_matter(a, b, cpu_of(processes));
    the_order_does_not_matter(a, b, cpu_known(processes));
}

/// A share of memory is given if and only if it is known of a process, and of no
/// more processes than there are.
pub proof fn shares_are_those_that_are_known(
    processes: Map<u32, ProcInfo>,
    root: u32,
    tree: Seq<u32>,
)
    requires
        is_tree(processes, root, tree),
        tree.len() <= usize::MAX,
    ensures
        ({
            let sample = sample_of(processes, root, tree);
            &&& sample.pss_process_count <= sample.process_count
            &&& sample.total_pss_bytes is Some <==> sample.pss_process_count > 0
        }),
{
    lemma_known_count(tree, pss_known(processes));
}

proof fn lemma_known_count(tree: Seq<u32>, known: spec_fn(u32) -> nat)
    requires
        forall|pid: u32| #[trigger] known(pid) <= 1,
    ensures
        total(tree, known) <= tree.len(),
    decreases tree.len(),
{
    if tree.len() > 0 {
        lemma_known_count(tree.drop_last(), known);
    }
}

/// A process that was started by one of the tree is of the tree.
pub proof fn children_belong_to_the_tree(processes: Map<u32, ProcInfo>, root: u32, pid: u32)
    requires
        processes.contains_key(pid),
        is_in_tree(processes, root, processes[pid].ppid),
    ensures
        is_in_tree(processes, root, pid),
{
    let n = choose|n: nat| leads_to(processes, root, processes[pid].ppid, n);
    assert(leads_to(processes, root, pid, n + 1));
}

/// A process of a tree is its root, or was started by one of the tree.
pub proof fn only_children_belong_to_the_tree(
    processes: Map<u32, ProcInfo>,
    root: u32,
    pid: u32,
)
    ensures
        is_in_tree(processes, root, root),
        pid != root ==> (is_in_tree(processes, root, pid) <==> processes.contains_key(pid)
            && is_in_tree(processes, root, processes[pid].ppid)),
{
    assert(leads_to(processes, root, root, 0));
    if pid != root && is_in_tree(processes, root, pid) {
        let n = choose|n: nat| leads_to(processes, root, pid, n);
        assert(leads_to(processes, root, processes[pid].ppid, (n - 1) as nat));
    }
    if pid != root && processes.contains_key(pid) && is_in_tree(
        processes,
        root,
        processes[pid].ppid,
    ) {
        children_belong_to_the_tree(processes, root, pid);
    }
}

/// Each process adds itself, its memory, its share and its processor time to a
/// sample, the last two as far as they are known. What is known of no process is not
/// in the sample.
pub proof fn each_process_adds_its_own(
    processes: Map<u32, ProcInfo>,
    root: u32,
    tree: Seq<u32>,
    pid: u32,
)
    requires
        is_countable(processes, tree.push(pid)),
        tree.len() < usize::MAX,
    ensures
        ({
            let before = sample_of(processes, root, tree);
            let after = sample_of(processes, root, tree.push(pid));
            let p = processes[pid];
            &&& after.root_pid == root
            &&& after.process_count == before.process_count + 1
            &&& after.total_rss_bytes == before.total_rss_bytes + p.rss_bytes
            &&& match (before.total_pss_bytes, p.pss_bytes) {
                (Some(a), Some(b)) => after.total_pss_bytes == Some((a + b) as u64),
                (Some(a), None) => after.total_pss_bytes == Some(a),
                (None, Some(b)) => after.total_pss_bytes == Some(b),
                (None, None) => after.total_pss_bytes is None,
            }
            &&& after.pss_process_count == before.pss_process_count + (if p.pss_bytes is Some {
                1int
            } else {
                0
            })
            &&& match (before.total_cpu_nanos, p.cpu_nanos) {
                (Some(a), Some(b)) => after.total_cpu_nanos == Some((a + b) as u128),
                (Some(a), None) => after.total_cpu_nanos == Some(a),
                (None, Some(b)) => after.total_cpu_nanos == Some(b),
                (None, None) => after.total_cpu_nanos is None,
            }
        }),
{
    assert(tree.push(pid).drop_last() =~= tree);
    lemma_known_count(tree, pss_known(processes));
    lemma_known_count(tree.push(pid), pss_known(processes));
    lemma_nothing_known(tree, pss_known(processes), pss_of(processes));
    lemma_nothing_known(tree, cpu_known(processes), cpu_of(processes));
}

proof fn lemma_nothing_known(
    tree: Seq<u32>,
    known: spec_fn(u32) -> nat,
    amount: spec_fn(u32) -> nat,
)
    requires
        forall|pid: u32| #[trigger] known(pid) == 0 ==> amount(pid) == 0,
    ensures
        total(tree, known) == 0 ==> total(tree, amount) == 0,
    decreases tree.len(),
{
    if tree.len() > 0 {
        lemma_nothing_known(tree.drop_last(), known, amount);
    }
}

/// A line with a key and a number behind it, with white space around the number, gives
/// the number: the parent behind `PPid:`, and the kilobytes, whatever unit follows,
/// behind `VmRSS:`. A line with neither key says nothing of either.
pub proof fn a_status_line_gives_its_number(
    lines: Seq<Seq<char>>,
    blank: char,
    n: nat,
    unit: Seq<char>,
    other: Seq<char>,
)
    requires
        text::is_white_space(blank),
        n <= u32::MAX,
        !"PPid:"@.is_prefix_of(other),
        !"VmRSS:"@.is_prefix_of(other),
    ensures
        status_ppid(lines.push("PPid:"@ + seq![blank] + text::decimal(n))) == Some(n),
        status_rss(lines.push("VmRSS:"@ + seq![blank] + (text::decimal(n) + seq![' '] + unit)))
            == Some(n),
        status_rss(lines.push("PPid:"@ + seq![blank] + text::decimal(n))) == status_rss(lines),
        status_ppid(lines.push("VmRSS:"@ + seq![blank] + (text::decimal(n) + seq![' '] + unit)))
            == status_ppid(lines),
        status_ppid(lines.push(other)) == status_ppid(lines),
        status_rss(lines.push(other)) == status_rss(lines),
        status_ppid(Seq::empty()) is None,
        status_rss(Seq::empty()) is None,
{
    reveal_strlit("PPid:");
    reveal_strlit("VmRSS:");
    let digits = text::decimal(n);
    let parent = "PPid:"@ + seq![blank] + digits;
    let memory = "VmRSS:"@ + seq![blank] + (digits + seq![' '] + unit);
    assert(lines.push(parent).drop_last() =~= lines);
    assert(lines.push(memory).drop_last() =~= lines);
    assert(lines.push(other).drop_last() =~= lines);
    assert(parent.take(5) =~= "PPid:"@);
    assert(memory.take(6) =~= "VmRSS:"@);
    assert("PPid:"@.is_prefix_of(parent));
    assert("VmRSS:"@.is_prefix_of(memory));
    assert(parent[0] == 'P' && memory[0] == 'V');
    assert("PPid:"@[0] == 'P' && "VmRSS:"@[0] == 'V');
    assert(!"VmRSS:"@.is_prefix_of(parent));
    assert(!"PPid:"@.is_prefix_of(memory));
    assert(parent.skip(5) =~= seq![blank] + digits);
    assert(memory.skip(6) =~= seq![blank] + (digits + seq![' '] + unit));
    lemma_number_behind(blank, n, unit);
}

proof fn lemma_number_behind(blank: char, n: nat, unit: Seq<char>)
    requires
        text::is_white_space(blank),
        n <= u64::MAX,
    ensures
        first_number(seq![blank] + (text::decimal(n) + seq![' '] + unit), u64::MAX as nat) == Some(
            n,
        ),
        n <= u32::MAX ==> text::parsed_number(
            text::trimmed(seq![blank] + text::decimal(n)),
            u32::MAX as nat,
        ) == Some(n),
{
    let digits = text::decimal(n);
    let nothing = Seq::<char>::empty();
    text::lemma_decimal_digits(n);
    text::decimal_reads_back(n, u64::MAX as nat);
    assert(text::is_digit(digits[0]));
    assert(text::is_digit(digits[digits.len() - 1]));
    assert forall|i: int| 0 <= i < digits.len() implies !text::is_white_space(
        #[trigger] digits[i],
    ) by {
        assert(text::is_digit(digits[i]));
    }
    text::a_text_without_white_space_is_a_word(digits);
    text::white_space_parts_words(nothing, blank, digits + seq![' '] + unit);
    text::white_space_parts_words(digits, ' ', unit);
    assert(nothing + seq![blank] + (digits + seq![' '] + unit) =~= seq![blank] + (digits + seq![' ']
        + unit));
    assert(text::words(nothing) =~= Seq::empty());
    assert(text::words(seq![blank] + (digits + seq![' '] + unit))[0] == digits);
    text::trimming_finds_what_is_inside(seq![blank], digits, nothing);
    assert(seq![blank] + digits + nothing =~= seq![blank] + digits);
    if n <= u32::MAX {
        text::decimal_reads_back(n, u32::MAX as nat);
    }
}

/// The first line with the key `Pss:` gives a process's share, in kilobytes.
pub proof fn a_share_stands_behind_its_key(
    before: Seq<Seq<char>>,
    after: Seq<Seq<char>>,
    blank: char,
    n: nat,
    unit: Seq<char>,
)
    requires
        text::is_white_space(blank),
        n <= u64::MAX,
        forall|i: int| 0 <= i < before.len() ==> !"Pss:"@.is_prefix_of(#[trigger] before[i]),
    ensures
        rollup_pss(
            before + seq!["Pss:"@ + seq![blank] + (text::decimal(n) + seq![' '] + unit)] + after,
            0,
        ) == Some(n),
        rollup_pss(before, 0) is None,
{
    reveal_strlit("Pss:");
    let line = "Pss:"@ + seq![blank] + (text::decimal(n) + seq![' '] + unit);
    let lines = before + seq![line] + after;
    assert(line.take(4) =~= "Pss:"@);
    assert("Pss:"@.is_prefix_of(line));
    assert(line.skip(4) =~= seq![blank] + (text::decimal(n) + seq![' '] + unit));
    lemma_number_behind(blank, n, unit);
    assert(lines[before.len() as int] == line);
    lemma_share_skips(lines, 0, before.len() as int);
    lemma_share_skips(before, 0, before.len() as int);
}

proof fn lemma_share_skips(lines: Seq<Seq<char>>, from: int, n: int)
    requires
        0 <= from <= n <= lines.len(),
        forall|i: int| from <= i < n ==> !"Pss:"@.is_prefix_of(#[trigger] lines[i]),
    ensures
        rollup_pss(lines, from) == rollup_pss(lines, n),
    decreases n - from,
{
    if from < n {
        assert(!"Pss:"@.is_prefix_of(lines[from]));
        lemma_share_skips(lines, from + 1, n);
    }
}

/// Processor time is the sum of two numbers behind the last closing bracket, whatever
/// stands before it: the twelfth word and the thirteenth.
pub proof fn a_stat_line_gives_both_times(
    front: Seq<char>,
    back: Seq<char>,
    user: nat,
    system: nat,
)
    requires
        !back.contains(')'),
        text::words(back).len() >= 13,
        text::words(back)[11] == text::decimal(user),
        text::words(back)[12] == text::decimal(system),
        user <= u64::MAX,
        system <= u64::MAX,
    ensures
        stat_ticks(front + seq![')'] + back) == Some(user + system),
        stat_ticks(back) is None,
{
    let line = front + seq![')'] + back;
    text::lemma_last_position_of(line, ')');
    text::lemma_last_position_of(back, ')');
    assert(line[front.len() as int] == ')');
    let p = text::last_position_of(line, ')')->0;
    if p > front.len() {
        assert(back[p - front.len() - 1] == ')');
        assert(back.contains(')'));
    }
    assert(p == front.len());
    assert(line.skip(p + 1) =~= back);
    text::decimal_reads_back(user, u64::MAX as nat);
    text::decimal_reads_back(system, u64::MAX as nat);
    match text::last_position_of(back, ')') {
        Some(i) => {
            assert(back.contains(back[i]));
        },
        None => {},
    }
}

/// A line of `ps` names a process, the one that started it and its kilobytes, in this
/// order; of two lines on one process the later counts, and a line with fewer words
/// does not.
pub proof fn a_ps_line_gives_its_process(
    lines: Seq<Seq<char>>,
    line: Seq<char>,
    pid: u32,
    ppid: u32,
    rss_kb: u64,
    other: Seq<char>,
)
    requires
        text::words(line).len() >= 3,
        text::words(line)[0] == text::decimal(pid as nat),
        text::words(line)[1] == text::decimal(ppid as nat),
        text::words(line)[2] == text::decimal(rss_kb as nat),
        text::words(other).len() < 3,
    ensures
        ps_processes(lines.push(line)).contains_key(pid),
        ps_processes(lines.push(line))[pid] == (ProcStatus { ppid, rss_kb }),
        forall|q: u32|
            q != pid ==> (#[trigger] ps_processes(lines.push(line)).contains_key(q)
                <==> ps_processes(lines).contains_key(q)),
        forall|q: u32|
            q != pid && ps_processes(lines).contains_key(q) ==> #[trigger] ps_processes(
                lines.push(line),
            )[q] == ps_processes(lines)[q],
        ps_processes(lines.push(other)) == ps_processes(lines),
{
    assert(lines.push(line).drop_last() =~= lines);
    assert(lines.push(other).drop_last() =~= lines);
    text::decimal_reads_back(pid as nat, u32::MAX as nat);
    text::decimal_reads_back(ppid as nat, u32::MAX as nat);
    text::decimal_reads_back(rss_kb as nat, u64::MAX as nat);
}

/// The memory of the machine is 1024 bytes for each kilobyte behind `MemTotal:`, if it
/// can be counted. It is read from the first line that gives it.
pub proof fn a_kilobyte_is_1024_bytes(
    rest: Seq<char>,
    kb: nat,
    before: Seq<Seq<char>>,
    after: Seq<Seq<char>>,
)
    requires
        text::words(rest).len() >= 2,
        text::words(rest)[0] == text::decimal(kb),
        text::words(rest)[1] == "kB"@,
        kb <= u64::MAX,
        forall|i: int| 0 <= i < before.len() ==> mem_total_in(#[trigger] before[i]) is None,
    ensures
        kb * 1024 <= u64::MAX ==> mem_total(before + seq!["MemTotal:"@ + rest] + after, 0) == Some(
            (kb * 1024) as u64,
        ),
        kb * 1024 > u64::MAX ==> mem_total_in("MemTotal:"@ + rest) is None,
        mem_total(before, 0) is None,
{
    reveal_strlit("MemTotal:");
    reveal_strlit("MemTotal");
    reveal_strlit("kB");
    reveal_strlit("kb");
    let line = "MemTotal:"@ + rest;
    let nothing = Seq::<char>::empty();
    text::lemma_position_of(line, ':', 0);
    assert(line[8] == ':');
    let n = text::position_of(line, ':', 0);
    assert(forall|i: int| 0 <= i < 8 ==> #[trigger] "MemTotal:"@[i] != ':');
    if n < 8 {
        assert(line[n] == "MemTotal:"@[n]);
    }
    assert(n == 8);
    assert(line.skip(9) =~= rest);
    assert(line.take(8) =~= "MemTotal"@);
    text::trimming_finds_what_is_inside(nothing, "MemTotal"@, nothing);
    assert(nothing + "MemTotal"@ + nothing =~= "MemTotal"@);
    assert(text::ascii_lower("kB"@) =~= "kb"@);
    text::decimal_reads_back(kb, u64::MAX as nat);
    let lines = before + seq![line] + after;
    assert(lines[before.len() as int] == line);
    assert forall|i: int| 0 <= i < before.len() implies mem_total_in(#[trigger] lines[i]) is None by {
        assert(lines[i] == before[i]);
    }
    lemma_memory_skips(lines, 0, before.len() as int);
    lemma_memory_skips(before, 0, before.len() as int);
}

proof fn lemma_memory_skips(lines: Seq<Seq<char>>, from: int, n: int)
    requires
        0 <= from <= n <= lines.len(),
        forall|i: int| from <= i < n ==> mem_total_in(#[trigger] lines[i]) is None,
    ensures
        mem_total(lines, from) == mem_total(lines, n),
    decreases n - from,
{
    if from < n {
        assert(mem_total_in(lines[from]) is None);
        lemma_memory_skips(lines, from + 1, n);
    }
}

/// A hundred ticks are a second, and the most kilobytes that can be counted in bytes
/// are the most that fit.
pub proof fn units_are_what_they_say()
    ensures
        100 * NANOS_PER_TICK == 1_000_000_000,
        MAX_KILOBYTES * 1024 <= u64::MAX,
        (MAX_KILOBYTES + 1) * 1024 > u64::MAX,
{
}

} // verus!
