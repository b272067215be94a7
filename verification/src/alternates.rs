//! Resolving the chain of linked store directories: each directory's link
//! file lists further store paths, absolute or relative to that directory.
//! Resolution expands them transitively, keyed by canonical path, and a
//! path already seen terminates that branch instead of looping — cycles are
//! truncated, never an error. A listed path with no directory behind it
//! contributes nothing.
use vstd::prelude::*;
use crate::bytes::{bytes_eq, copy_bytes};
use crate::disk::DiskState;

verus! {

/// A line of a link file names a path: taken as is when absolute, joined
/// below the listing directory otherwise.
pub open spec fn resolved_path(root: Seq<u8>, line: Seq<u8>) -> Seq<u8> {
    if line.len() > 0 && line[0] == 47u8 {
        line
    } else {
        root + seq![47u8] + line
    }
}

pub fn join_path(root: &Vec<u8>, line: &Vec<u8>) -> (r: Vec<u8>)
    ensures
        r@ == resolved_path(root@, line@),
{
    if line.len() > 0 && line[0] == 47u8 {
        copy_bytes(line)
    } else {
        let mut r = copy_bytes(root);
        r.push(47u8);
        let mut l = copy_bytes(line);
        r.append(&mut l);
        proof {
            assert(r@ =~= root@ + seq![47u8] + line@);
        }
        r
    }
}

/// The directory a canonical path names, if it exists.
pub open spec fn dir_with_path(disk: DiskState, p: Seq<u8>) -> Option<int> {
    if exists|d: int| 0 <= d < disk.dirs@.len() && (#[trigger] disk.dirs@[d]).path@ == p {
        Some(choose|d: int| 0 <= d < disk.dirs@.len() && (#[trigger] disk.dirs@[d]).path@ == p)
    } else {
        None
    }
}

proof fn lemma_dir_with_path(disk: DiskState, p: Seq<u8>, d: int)
    requires
        disk.wf(),
        0 <= d < disk.dirs@.len(),
        disk.dirs@[d].path@ == p,
    ensures
        dir_with_path(disk, p) == Some(d),
{
    let e = choose|e: int| 0 <= e < disk.dirs@.len() && (#[trigger] disk.dirs@[e]).path@ == p;
    if e < d {
        assert(disk.dirs@[e].path@ != disk.dirs@[d].path@);
    } else if d < e {
        assert(disk.dirs@[d].path@ != disk.dirs@[e].path@);
    }
}

pub fn find_dir(disk: &DiskState, p: &Vec<u8>) -> (r: Option<usize>)
    requires
        disk.wf(),
    ensures
        match r {
            Some(d) => (d as int) < disk.dirs@.len() && dir_with_path(*disk, p@) == Some(d as int),
            None => dir_with_path(*disk, p@) is None,
        },
{
    let mut d: usize = 0;
    while d < disk.dirs.len()
        invariant
            d <= disk.dirs@.len(),
            disk.wf(),
            forall|k: int| 0 <= k < d ==> (#[trigger] disk.dirs@[k]).path@ != p@,
        decreases disk.dirs@.len() - d,
    {
        if bytes_eq(&disk.dirs[d].path, p) {
            proof {
                lemma_dir_with_path(*disk, p@, d as int);
            }
            return Some(d);
        }
        d += 1;
    }
    proof {
        if dir_with_path(*disk, p@) is Some {
            let e = choose|e: int|
                0 <= e < disk.dirs@.len() && (#[trigger] disk.dirs@[e]).path@ == p@;
            assert(disk.dirs@[e].path@ != p@);
        }
    }
    None
}

/// The directory the `l`-th link line of directory `d` resolves to.
pub open spec fn alt_target(disk: DiskState, d: int, l: int) -> Option<int> {
    dir_with_path(disk, resolved_path(disk.dirs@[d].path@, disk.dirs@[d].alternates@[l]@))
}

/// A resolved target is a real directory index.
pub proof fn lemma_alt_target_range(disk: DiskState, d: int, l: int)
    ensures
        match alt_target(disk, d, l) {
            Some(x) => 0 <= x < disk.dirs@.len(),
            None => true,
        },
{
    let p = resolved_path(disk.dirs@[d].path@, disk.dirs@[d].alternates@[l]@);
    if exists|e: int| 0 <= e < disk.dirs@.len() && (#[trigger] disk.dirs@[e]).path@ == p {
        let e = choose|e: int| 0 <= e < disk.dirs@.len() && (#[trigger] disk.dirs@[e]).path@ == p;
    }
}

/// Every link line of every listed directory resolves to a directory that
/// is itself listed, or to no directory at all.
pub open spec fn order_closed(disk: DiskState, order: Seq<usize>) -> bool {
    forall|i: int, l: int|
        0 <= i < order.len() && 0 <= l < disk.dirs@[order[i] as int].alternates@.len()
            ==> match #[trigger] alt_target(disk, order[i] as int, l) {
            Some(t) => order.contains(t as usize),
            None => true,
        }
}

/// What one visit pushes onto the worklist: the targets of the lines below
/// `l`, last line first, so that the first line is taken off first.
pub open spec fn pushed_below(disk: DiskState, d: int, l: int) -> Seq<usize>
    decreases l,
{
    if l <= 0 {
        Seq::empty()
    } else {
        (match alt_target(disk, d, l - 1) {
            Some(x) => seq![x as usize],
            None => Seq::empty(),
        }) + pushed_below(disk, d, l - 1)
    }
}

/// The exact order a resolution pass produces, over an explicit worklist
/// whose top is its last element: a known or missing entry is dropped, a
/// fresh one is listed and its link lines are queued first line on top.
pub open spec fn resolve_loop_spec(disk: DiskState, stack: Seq<usize>, visited: Seq<bool>) -> Seq<
    usize,
>
    decreases count_false(visited), stack.len(),
    via resolve_loop_spec_decreases
{
    if stack.len() == 0 {
        Seq::empty()
    } else {
        let t = stack.last();
        let rest = stack.drop_last();
        if (t as int) >= visited.len() || visited[t as int] {
            resolve_loop_spec(disk, rest, visited)
        } else {
            seq![t] + resolve_loop_spec(
                disk,
                rest + pushed_below(disk, t as int, disk.dirs@[t as int].alternates@.len() as int),
                visited.update(t as int, true),
            )
        }
    }
}

#[via_fn]
proof fn resolve_loop_spec_decreases(disk: DiskState, stack: Seq<usize>, visited: Seq<bool>) {
    if stack.len() > 0 {
        let t = stack.last();
        if (t as int) < visited.len() && !visited[t as int] {
            lemma_count_update(visited, t as int);
        }
    }
}

/// The order one resolution from `root` yields, no directory visited yet.
pub open spec fn resolve_spec(disk: DiskState, root: usize) -> Seq<usize> {
    resolve_loop_spec(disk, seq![root], Seq::new(disk.dirs@.len(), |i: int| false))
}

/// How many directories a visit pass has not reached yet.
pub open spec fn count_false(s: Seq<bool>) -> nat
    decreases s.len(),
{
    if s.len() == 0 {
        0
    } else {
        count_false(s.drop_last()) + if s.last() {
            0nat
        } else {
            1nat
        }
    }
}

proof fn lemma_count_update(s: Seq<bool>, i: int)
    requires
        0 <= i < s.len(),
        !s[i],
    ensures
        count_false(s) >= 1,
        count_false(s.update(i, true)) == count_false(s) - 1,
    decreases s.len(),
{
    let u = s.update(i, true);
    if i == s.len() - 1 {
        assert(u.drop_last() =~= s.drop_last());
        assert(u.last());
        assert(!s.last());
    } else {
        lemma_count_update(s.drop_last(), i);
        assert(u.drop_last() =~= s.drop_last().update(i, true));
        assert(u.last() == s.last());
    }
}

/// Expands the alternates graph from the primary directory: depth first,
/// each directory listed once, a cycle dropping back to an already-listed
/// path truncated. The result is the finite, duplicate-free search order,
/// the primary first.
pub fn resolve_alternates(disk: &DiskState, root: usize) -> (order: Vec<usize>)
    requires
        disk.wf(),
        (root as int) < disk.dirs@.len(),
    ensures
        order@.len() >= 1,
        order@[0] == root,
        order@.len() <= disk.dirs@.len(),
        forall|i: int| 0 <= i < order@.len() ==> (#[trigger] order@[i] as int) < disk.dirs@.len(),
        forall|i: int, j: int| 0 <= i < j < order@.len() ==> order@[i] != order@[j],
        order_closed(*disk, order@),
        order@ == resolve_spec(*disk, root),
{
    let n = disk.dirs.len();
    let mut visited: Vec<bool> = vec![false; n];
    let mut order: Vec<usize> = Vec::new();
    let mut stack: Vec<usize> = Vec::new();
    stack.push(root);
    proof {
        assert(stack@ =~= seq![root]);
        assert(visited@ =~= Seq::new(disk.dirs@.len(), |i: int| false));
        assert(order@ + resolve_loop_spec(*disk, stack@, visited@) =~= resolve_spec(
            *disk,
            root,
        ));
    }
    while stack.len() > 0
        invariant
            disk.wf(),
            (root as int) < disk.dirs@.len(),
            visited@.len() == disk.dirs@.len(),
            visited@.len() <= usize::MAX,
            forall|s: int| 0 <= s < stack@.len() ==> (#[trigger] stack@[s] as int) < disk.dirs@.len(),
            forall|i: int|
                0 <= i < order@.len() ==> (#[trigger] order@[i] as int) < disk.dirs@.len()
                    && visited@[order@[i] as int],
            forall|t: int| 0 <= t < visited@.len() && visited@[t] ==> order@.contains(t as usize),
            forall|i: int, j: int| 0 <= i < j < order@.len() ==> order@[i] != order@[j],
            order@.len() == 0 ==> stack@ == seq![root],
            order@.len() >= 1 ==> order@[0] == root,
            forall|i: int, l: int|
                0 <= i < order@.len() && 0 <= l
                    < disk.dirs@[order@[i] as int].alternates@.len()
                    ==> match #[trigger] alt_target(*disk, order@[i] as int, l) {
                    Some(t) => visited@[t] || stack@.contains(t as usize),
                    None => true,
                },
            order@ + resolve_loop_spec(*disk, stack@, visited@) == resolve_spec(*disk, root),
        decreases count_false(visited@), stack@.len(),
    {
        let ghost prev_stack = stack@;
        let t = match stack.pop() {
            Some(t) => t,
            None => {
                proof {
                    assert(false);
                }
                0
            },
        };
        proof {
            assert(stack@ =~= prev_stack.drop_last());
            assert(t == prev_stack.last());
            assert forall|y: usize| prev_stack.contains(y) implies stack@.contains(y) || y
                == t by {
                let s = choose|s: int| 0 <= s < prev_stack.len() && prev_stack[s] == y;
                if s < prev_stack.len() - 1 {
                    assert(stack@[s] == y);
                }
            }
        }
        if !visited[t] {
            let ghost pre_order = order@;
            let ghost pre_visited = visited@;
            let ghost rest = stack@;
            proof {
                lemma_count_update(visited@, t as int);
            }
            visited[t] = true;
            order.push(t);
            proof {
                assert forall|x: int|
                    0 <= x < visited@.len() && visited@[x] implies order@.contains(
                    x as usize,
                ) by {
                    if x == t as int {
                        assert(order@[order@.len() - 1] == t);
                    } else {
                        assert(pre_visited[x]);
                        assert(pre_order.contains(x as usize));
                        let i = choose|i: int|
                            0 <= i < pre_order.len() && pre_order[i] == x as usize;
                        assert(order@[i] == x as usize);
                    }
                }
            }
            let ghost base_order = order@;
            let ghost base_visited = visited@;
            proof {
                assert forall|i: int, ll: int|
                    0 <= i < order@.len() - 1 && 0 <= ll
                        < disk.dirs@[order@[i] as int].alternates@.len() implies (
                match #[trigger] alt_target(*disk, order@[i] as int, ll) {
                    Some(x) => visited@[x] || stack@.contains(x as usize),
                    None => true,
                }) by {
                    assert(order@[i] == pre_order[i]);
                    lemma_alt_target_range(*disk, order@[i] as int, ll);
                    match alt_target(*disk, order@[i] as int, ll) {
                        Some(x) => {
                            assert(pre_visited[x] || prev_stack.contains(x as usize));
                            if pre_visited[x] {
                                assert(visited@[x]);
                            } else {
                                assert(stack@.contains(x as usize) || x as usize == t);
                                if x as usize == t {
                                    assert(visited@[x]);
                                }
                            }
                        },
                        None => {},
                    }
                }
            }
            let line_count = disk.dirs[t].alternates.len();
            let mut l: usize = line_count;
            while l > 0
                invariant
                    disk.wf(),
                    (t as int) < disk.dirs@.len(),
                    line_count == disk.dirs@[t as int].alternates@.len(),
                    l <= line_count,
                    order@ == base_order,
                    visited@ == base_visited,
                    visited@.len() == disk.dirs@.len(),
                    forall|s: int|
                        0 <= s < stack@.len() ==> (#[trigger] stack@[s] as int)
                            < disk.dirs@.len(),
                    forall|i: int|
                        0 <= i < order@.len() ==> (#[trigger] order@[i] as int)
                            < disk.dirs@.len() && visited@[order@[i] as int],
                    forall|x: int|
                        0 <= x < visited@.len() && visited@[x] ==> order@.contains(x as usize),
                    forall|i: int, j: int| 0 <= i < j < order@.len() ==> order@[i] != order@[j],
                    order@.len() >= 1 && order@[0] == root,
                    order@.last() == t,
                    forall|i: int, ll: int|
                        0 <= i < order@.len() - 1 && 0 <= ll
                            < disk.dirs@[order@[i] as int].alternates@.len()
                            ==> match #[trigger] alt_target(*disk, order@[i] as int, ll) {
                            Some(x) => visited@[x] || stack@.contains(x as usize),
                            None => true,
                        },
                    forall|ll: int|
                        l <= ll < line_count ==> match #[trigger] alt_target(*disk, t as int, ll) {
                            Some(x) => visited@[x] || stack@.contains(x as usize),
                            None => true,
                        },
                    rest + pushed_below(*disk, t as int, line_count as int) == stack@
                        + pushed_below(*disk, t as int, l as int),
                decreases l,
            {
                l -= 1;
                let ghost before = stack@;
                let p = join_path(&disk.dirs[t].path, &disk.dirs[t].alternates[l]);
                match find_dir(disk, &p) {
                    Some(tgt) => {
                        stack.push(tgt);
                        proof {
                            assert forall|y: usize| before.contains(y) implies stack@.contains(
                                y,
                            ) by {
                                let s = choose|s: int| 0 <= s < before.len() && before[s] == y;
                                assert(stack@[s] == y);
                            }
                            assert(stack@[stack@.len() - 1] == tgt);
                            assert(alt_target(*disk, t as int, l as int) == Some(tgt as int));
                            assert(pushed_below(*disk, t as int, l as int + 1) == seq![tgt]
                                + pushed_below(*disk, t as int, l as int));
                            assert(before + (seq![tgt] + pushed_below(*disk, t as int, l as int))
                                =~= stack@ + pushed_below(*disk, t as int, l as int));
                        }
                    },
                    None => {
                        proof {
                            assert(alt_target(*disk, t as int, l as int) is None);
                            assert(pushed_below(*disk, t as int, l as int + 1) =~= pushed_below(
                                *disk,
                                t as int,
                                l as int,
                            ));
                        }
                    },
                }
            }
            proof {
                assert forall|i: int, ll: int|
                    0 <= i < order@.len() && 0 <= ll
                        < disk.dirs@[order@[i] as int].alternates@.len() implies (
                match #[trigger] alt_target(*disk, order@[i] as int, ll) {
                    Some(x) => visited@[x] || stack@.contains(x as usize),
                    None => true,
                }) by {
                    if i == order@.len() - 1 {
                        assert(order@[i] == t);
                        assert(alt_target(*disk, order@[i] as int, ll) == alt_target(
                            *disk,
                            t as int,
                            ll,
                        ));
                    }
                }
                assert(pushed_below(*disk, t as int, 0) =~= Seq::<usize>::empty());
                assert(stack@ =~= rest + pushed_below(*disk, t as int, line_count as int));
                assert(prev_stack.last() == t);
                assert(prev_stack.drop_last() =~= rest);
                assert((t as int) < pre_visited.len() && !pre_visited[t as int]);
                assert(line_count as int == disk.dirs@[t as int].alternates@.len());
                assert(resolve_loop_spec(*disk, prev_stack, pre_visited) == seq![t]
                    + resolve_loop_spec(
                    *disk,
                    rest + pushed_below(
                        *disk,
                        t as int,
                        disk.dirs@[t as int].alternates@.len() as int,
                    ),
                    pre_visited.update(t as int, true),
                ));
                assert(visited@ =~= pre_visited.update(t as int, true));
                assert(order@ =~= pre_order.push(t));
                assert(pre_order + (seq![t] + resolve_loop_spec(*disk, stack@, visited@)) =~= order@
                    + resolve_loop_spec(*disk, stack@, visited@));
            }
        } else {
            proof {
                assert forall|i: int, ll: int|
                    0 <= i < order@.len() && 0 <= ll
                        < disk.dirs@[order@[i] as int].alternates@.len() implies (
                match #[trigger] alt_target(*disk, order@[i] as int, ll) {
                    Some(x) => visited@[x] || stack@.contains(x as usize),
                    None => true,
                }) by {
                    lemma_alt_target_range(*disk, order@[i] as int, ll);
                    match alt_target(*disk, order@[i] as int, ll) {
                        Some(x) => {
                            assert(visited@[x] || prev_stack.contains(x as usize));
                            if !visited@[x] {
                                assert(stack@.contains(x as usize) || x as usize == t);
                            }
                        },
                        None => {},
                    }
                }
                assert((t as int) < visited@.len());
                assert(resolve_loop_spec(*disk, prev_stack, visited@) == resolve_loop_spec(
                    *disk,
                    stack@,
                    visited@,
                ));
            }
        }
    }
    proof {
        if order@.len() == 0 {
            assert(stack@.len() == 1);
        }
        lemma_order_len_bound(order@, n);
        assert(resolve_loop_spec(*disk, stack@, visited@) == Seq::<usize>::empty());
        assert(order@ + Seq::<usize>::empty() =~= order@);
    }
    order
}

/// A duplicate-free list of indices into a range is no longer than the
/// range.
proof fn lemma_order_len_bound(order: Seq<usize>, n: usize)
    requires
        forall|i: int| 0 <= i < order.len() ==> (#[trigger] order[i] as int) < n,
        forall|i: int, j: int| 0 <= i < j < order.len() ==> order[i] != order[j],
    ensures
        order.len() <= n,
{
    assert(order.no_duplicates()) by {
        assert forall|i: int, j: int|
            0 <= i < order.len() && 0 <= j < order.len() && i != j implies order[i]
            != order[j] by {
            if j < i {
                assert(order[j] != order[i]);
            }
        }
    }
    order.unique_seq_to_set();
    let range = Set::new(|x: usize| 0 <= (x as int) < n);
    assert forall|x: usize| order.to_set().contains(x) implies range.contains(x) by {
        let i = choose|i: int| 0 <= i < order.len() && order[i] == x;
    }
    lemma_usize_range_card(n);
    vstd::set_lib::lemma_len_subset(order.to_set(), range);
}

/// The usize values below `n` number exactly `n`.
proof fn lemma_usize_range_card(n: usize)
    ensures
        Set::new(|x: usize| 0 <= (x as int) < n).finite(),
        Set::new(|x: usize| 0 <= (x as int) < n).len() == n,
    decreases n,
{
    let s = Set::new(|x: usize| 0 <= (x as int) < n);
    if n == 0 {
        assert(s =~= Set::<usize>::empty());
    } else {
        lemma_usize_range_card((n - 1) as usize);
        let p = Set::new(|x: usize| 0 <= (x as int) < n - 1);
        assert(s =~= p.insert((n - 1) as usize));
    }
}

} // verus!
