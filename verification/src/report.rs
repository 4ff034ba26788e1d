//! The duplicate reporter: one pass over the index's ordered scan that
//! gathers neighbours with one identifier and keeps the gatherings of two or
//! more paths.

use vstd::prelude::*;
use vstd::relations::sorted_by;
use crate::order::{
    entries, lemma_record_order_total, path_order, paths_of, record_order, sorted_paths, texts,
    Entry,
};

verus! {

/// The paths that share one digest.
#[derive(Debug)]
pub struct DuplicateGroup {
    /// The identifier of the digest.
    pub hash_id: u32,
    /// The paths, in ascending order.
    pub paths: Vec<String>,
}

/// A `DuplicateGroup` as a mathematical value.
pub ghost struct GroupView {
    pub hash_id: u32,
    pub paths: Seq<Seq<char>>,
}

impl View for DuplicateGroup {
    type V = GroupView;

    open spec fn view(&self) -> GroupView {
        GroupView { hash_id: self.hash_id, paths: texts(self.paths@) }
    }
}

/// The mathematical value of a sequence of groups.
pub open spec fn group_views(groups: Seq<DuplicateGroup>) -> Seq<GroupView> {
    groups.map_values(|g: DuplicateGroup| g@)
}

/// The maximal runs of neighbours with one identifier, in the order in which
/// they stand.
pub open spec fn runs(scan: Seq<Entry>) -> Seq<Seq<Entry>>
    decreases scan.len(),
{
    if scan.len() == 0 {
        Seq::empty()
    } else {
        let before = runs(scan.drop_last());
        if scan.len() >= 2 && scan[scan.len() - 2].0 == scan.last().0 {
            before.drop_last().push(before.last().push(scan.last()))
        } else {
            before.push(seq![scan.last()])
        }
    }
}

/// The group that a run makes: its identifier, and its paths in order.
pub open spec fn group_of(run: Seq<Entry>) -> GroupView {
    GroupView { hash_id: run[0].0, paths: paths_of(run.sort_by(record_order())) }
}

/// The groups of the runs that hold two records or more.
pub open spec fn groups_of_runs(runs: Seq<Seq<Entry>>) -> Seq<GroupView>
    decreases runs.len(),
{
    if runs.len() == 0 {
        Seq::empty()
    } else if runs.last().len() >= 2 {
        groups_of_runs(runs.drop_last()).push(group_of(runs.last()))
    } else {
        groups_of_runs(runs.drop_last())
    }
}

/// The duplicate groups of a scan.
pub open spec fn groups_of(scan: Seq<Entry>) -> Seq<GroupView> {
    groups_of_runs(runs(scan))
}

/// Paths with a tab between each two.
pub open spec fn joined(paths: Seq<Seq<char>>) -> Seq<char>
    decreases paths.len(),
{
    if paths.len() == 0 {
        Seq::empty()
    } else if paths.len() == 1 {
        paths[0]
    } else {
        joined(paths.drop_last()) + seq!['\t'] + paths.last()
    }
}

/// The report of a scan: the line of each duplicate group.
pub open spec fn lines_of(scan: Seq<Entry>) -> Seq<Seq<char>> {
    groups_of(scan).map_values(|g: GroupView| joined(g.paths))
}

/// Closes the run that the records `lo..hi` form: orders it and reads off
/// its paths.
fn close_run(records: &Vec<(u32, String)>, lo: usize, hi: usize) -> (group: DuplicateGroup)
    requires
        lo < hi <= records@.len(),
    ensures
        group@ == group_of(entries(records@).subrange(lo as int, hi as int)),
{
    DuplicateGroup { hash_id: records[lo].0, paths: sorted_paths(records, lo, hi) }
}

/// Gathers the records of a scan into duplicate groups.
///
/// Neighbours with one identifier form a run; a run of two records or more
/// becomes a group, with its paths in ascending order; a run of one record is
/// dropped. The groups come in the order of their runs.
pub fn duplicate_groups(hash_paths: &Vec<(u32, String)>) -> (groups: Vec<DuplicateGroup>)
    ensures
        group_views(groups@) == groups_of(entries(hash_paths@)),
{
    let ghost scan = entries(hash_paths@);
    let mut groups: Vec<DuplicateGroup> = Vec::new();
    let mut start: usize = 0;
    let mut i: usize = 0;
    while i < hash_paths.len()
        invariant
            start <= i <= hash_paths.len(),
            scan == entries(hash_paths@),
            i == 0 ==> groups@.len() == 0,
            i > 0 ==> {
                &&& start < i
                &&& runs(scan.take(i as int)).len() > 0
                &&& runs(scan.take(i as int)).last() == scan.subrange(start as int, i as int)
                &&& group_views(groups@) == groups_of_runs(runs(scan.take(i as int)).drop_last())
            },
        decreases hash_paths.len() - i,
    {
        let ghost before = runs(scan.take(i as int));
        let ghost after = runs(scan.take(i + 1));
        let ghost old_groups = group_views(groups@);
        proof {
            assert(scan.take(i + 1).drop_last() =~= scan.take(i as int));
            assert(scan.take(i + 1).last() == scan[i as int]);
            if i > 0 {
                assert(scan.take(i + 1)[i - 1] == scan[i - 1]);
            }
        }
        if i > 0 && hash_paths[i - 1].0 == hash_paths[i].0 {
            proof {
                assert(after == before.drop_last().push(before.last().push(scan[i as int])));
                assert(scan.subrange(start as int, i + 1) =~= scan.subrange(
                    start as int,
                    i as int,
                ).push(scan[i as int]));
                assert(after.drop_last() =~= before.drop_last());
            }
        } else {
            if i - start > 1 {
                let group = close_run(hash_paths, start, i);
                groups.push(group);
                assert(group_views(groups@) =~= old_groups.push(group_of(before.last())));
            }
            start = i;
            proof {
                assert(after == before.push(seq![scan[i as int]]));
                assert(scan.subrange(i as int, i + 1) =~= seq![scan[i as int]]);
                assert(after.drop_last() =~= before);
                if i == 0 {
                    assert(group_views(groups@) =~= groups_of_runs(before));
                }
            }
        }
        i += 1;
    }
    proof {
        assert(scan.take(hash_paths.len() as int) =~= scan);
    }
    if hash_paths.len() - start > 1 {
        let ghost old_groups = group_views(groups@);
        let group = close_run(hash_paths, start, hash_paths.len());
        groups.push(group);
        assert(group_views(groups@) =~= old_groups.push(group_of(runs(scan).last())));
    }
    groups
}

/// The line of one group: its paths with a tab between each two.
pub fn group_line(group: &DuplicateGroup) -> (line: String)
    ensures
        line@ == joined(group@.paths),
{
    let mut line = String::new();
    let mut i: usize = 0;
    let ghost paths = group@.paths;
    while i < group.paths.len()
        invariant
            i <= group.paths.len(),
            paths == texts(group.paths@),
            line@ == joined(paths.take(i as int)),
        decreases group.paths.len() - i,
    {
        proof {
            reveal_strlit("\t");
            assert(paths.take(i + 1).drop_last() =~= paths.take(i as int));
            assert("\t"@ =~= seq!['\t']);
        }
        if i > 0 {
            line.append("\t");
        }
        line.append(group.paths[i].as_str());
        proof {
            if i == 0 {
                assert(line@ =~= paths[0]);
            }
        }
        i += 1;
    }
    assert(paths.take(group.paths.len() as int) =~= paths);
    line
}

/// Reports the duplicate files of a scan of the index: one line for each
/// identifier that two paths or more share, holding those paths in ascending
/// order with a tab between each two. Content that one path alone holds gives
/// no line.
pub fn report_duplicate_files(hash_paths: Vec<(u32, String)>) -> (lines: Vec<String>)
    ensures
        texts(lines@) == lines_of(entries(hash_paths@)),
{
    let groups = duplicate_groups(&hash_paths);
    let mut lines: Vec<String> = Vec::new();
    let mut i: usize = 0;
    while i < groups.len()
        invariant
            i <= groups.len(),
            lines@.len() == i,
            forall|k: int| 0 <= k < i ==> (#[trigger] lines@[k])@ == joined(groups@[k]@.paths),
        decreases groups.len() - i,
    {
        lines.push(group_line(&groups[i]));
        i += 1;
    }
    assert(texts(lines@) =~= lines_of(entries(hash_paths@))) by {
        assert(forall|k: int| 0 <= k < groups@.len() ==> group_views(groups@)[k] == groups@[k]@);
    }
    lines
}

/// The runs of a scan cut it where the identifier changes, and nowhere else:
/// one after the other they give the scan back, every run holds at least one
/// record, and its records carry one identifier, which is not that of the
/// next run.
pub proof fn lemma_runs_cover(scan: Seq<Entry>)
    ensures
        runs(scan).flatten() == scan,
        scan.len() > 0 ==> runs(scan).len() > 0 && runs(scan).last().len() > 0 && runs(
            scan,
        ).last().last() == scan.last(),
        forall|k: int, m: int|
            0 <= k < runs(scan).len() && 0 <= m < runs(scan)[k].len() ==> (#[trigger] runs(
                scan,
            )[k][m]).0 == runs(scan)[k][0].0,
        forall|k: int|
            0 <= k < runs(scan).len() ==> (#[trigger] runs(scan)[k]).len() > 0 && (k + 1 < runs(
                scan,
            ).len() ==> runs(scan)[k].last().0 != runs(scan)[k + 1][0].0),
    decreases scan.len(),
{
    let rs = runs(scan);
    rs.lemma_flatten_and_flatten_alt_are_equivalent();
    if scan.len() > 0 {
        let before = scan.drop_last();
        let x = scan.last();
        let rb = runs(before);
        lemma_runs_cover(before);
        rb.lemma_flatten_and_flatten_alt_are_equivalent();
        assert(scan =~= before.push(x));
        if scan.len() >= 2 && scan[scan.len() - 2].0 == x.0 {
            let top = rb.len() - 1;
            assert(before.last() == scan[scan.len() - 2]);
            assert(rs.drop_last() =~= rb.drop_last());
            assert(rs.last() == rb.last().push(x));
            assert(rs.flatten_alt() =~= rb.flatten_alt().push(x));
            assert forall|k: int, m: int| 0 <= k < rs.len() && 0 <= m < rs[k].len() implies (
            #[trigger] rs[k][m]).0 == rs[k][0].0 by {
                if k < top {
                    assert(rs[k] == rb[k]);
                } else if m < rb[top].len() {
                    assert(rs[k][m] == rb[top][m]);
                    assert(rs[k][0] == rb[top][0]);
                } else {
                    assert(rb[top][rb[top].len() - 1].0 == rb[top][0].0);
                }
            }
            assert forall|k: int| 0 <= k < rs.len() implies (#[trigger] rs[k]).len() > 0 && (k + 1
                < rs.len() ==> rs[k].last().0 != rs[k + 1][0].0) by {
                if k < top {
                    assert(rs[k] == rb[k]);
                    assert(rs[k + 1][0] == rb[k + 1][0]);
                }
            }
        } else {
            let top = rb.len() as int;
            assert(rs.drop_last() =~= rb);
            assert(rs.last() == seq![x]);
            assert(rs.flatten_alt() =~= rb.flatten_alt().push(x));
            assert forall|k: int, m: int| 0 <= k < rs.len() && 0 <= m < rs[k].len() implies (
            #[trigger] rs[k][m]).0 == rs[k][0].0 by {
                if k < top {
                    assert(rs[k] == rb[k]);
                }
            }
            assert forall|k: int| 0 <= k < rs.len() implies (#[trigger] rs[k]).len() > 0 && (k + 1
                < rs.len() ==> rs[k].last().0 != rs[k + 1][0].0) by {
                if k < top {
                    assert(rs[k] == rb[k]);
                    if k + 1 == top {
                        assert(before.last() == scan[scan.len() - 2]);
                    } else {
                        assert(rs[k + 1] == rb[k + 1]);
                    }
                }
            }
        }
    }
}

/// The number of records of a scan that carry an identifier.
pub open spec fn count_of(scan: Seq<Entry>, id: u32) -> nat
    decreases scan.len(),
{
    if scan.len() == 0 {
        0
    } else if scan.last().0 == id {
        count_of(scan.drop_last(), id) + 1
    } else {
        count_of(scan.drop_last(), id)
    }
}

/// Whether the identifiers of a scan never descend.
pub open spec fn ascending_ids(scan: Seq<Entry>) -> bool {
    forall|i: int, j: int|
        0 <= i < j < scan.len() ==> (#[trigger] scan[i]).0 <= (#[trigger] scan[j]).0
}

/// An identifier that no record carries is counted zero times, and one that
/// is counted is carried by a record.
pub proof fn lemma_count_of(scan: Seq<Entry>, id: u32)
    ensures
        count_of(scan, id) > 0 <==> exists|i: int|
            0 <= i < scan.len() && (#[trigger] scan[i]).0 == id,
    decreases scan.len(),
{
    if scan.len() > 0 {
        let before = scan.drop_last();
        lemma_count_of(before, id);
        if count_of(scan, id) > 0 {
            if scan.last().0 == id {
                assert(scan[scan.len() - 1].0 == id);
            } else {
                let i = choose|i: int| 0 <= i < before.len() && (#[trigger] before[i]).0 == id;
                assert(scan[i].0 == id);
            }
        }
        if exists|i: int| 0 <= i < scan.len() && (#[trigger] scan[i]).0 == id {
            let i = choose|i: int| 0 <= i < scan.len() && (#[trigger] scan[i]).0 == id;
            if i < before.len() {
                assert(before[i].0 == id);
            }
        }
    }
}

/// Two records of a scan with one identifier make its count two at least.
pub proof fn lemma_count_of_two(scan: Seq<Entry>, i: int, j: int)
    requires
        0 <= i < j < scan.len(),
        scan[i].0 == scan[j].0,
    ensures
        count_of(scan, scan[i].0) >= 2,
    decreases scan.len(),
{
    let earlier = scan.drop_last();
    if j == scan.len() - 1 {
        lemma_count_of(earlier, scan[i].0);
        assert(earlier[i].0 == scan[i].0);
    } else {
        assert(earlier[i] == scan[i] && earlier[j] == scan[j]);
        lemma_count_of_two(earlier, i, j);
    }
}

/// Whether a record stands in one of the runs.
pub open spec fn in_some_run(rs: Seq<Seq<Entry>>, record: Entry) -> bool {
    exists|k: int| 0 <= k < rs.len() && (#[trigger] rs[k]).contains(record)
}

/// Whether the identifiers at the heads of runs ascend.
pub open spec fn ascending_runs(rs: Seq<Seq<Entry>>) -> bool {
    forall|k: int, l: int|
        0 <= k < l < rs.len() ==> (#[trigger] rs[k])[0].0 < (#[trigger] rs[l])[0].0
}

/// What holds of the runs of a scan whose identifiers never descend: every
/// run holds at least one record, all the records of the scan that carry its
/// identifier and no others, and the identifiers of the runs ascend.
pub open spec fn runs_partition(rs: Seq<Seq<Entry>>, scan: Seq<Entry>) -> bool {
    &&& forall|k: int|
        0 <= k < rs.len() ==> (#[trigger] rs[k]).len() > 0 && rs[k].len() == count_of(
            scan,
            rs[k][0].0,
        )
    &&& forall|k: int, m: int|
        0 <= k < rs.len() && 0 <= m < rs[k].len() ==> (#[trigger] rs[k][m]).0 == rs[k][0].0
            && scan.contains(rs[k][m])
    &&& ascending_runs(rs)
    &&& forall|i: int| 0 <= i < scan.len() ==> #[trigger] in_some_run(rs, scan[i])
}

/// One more record with the identifier of the last one joins the last run.
proof fn lemma_run_grows(before: Seq<Entry>, x: Entry)
    requires
        before.len() > 0,
        before.last().0 == x.0,
        runs(before).len() > 0,
        runs(before).last()[0].0 == x.0,
        runs_partition(runs(before), before),
    ensures
        runs(before.push(x)) == runs(before).drop_last().push(runs(before).last().push(x)),
        runs_partition(runs(before.push(x)), before.push(x)),
{
    let scan = before.push(x);
    let rb = runs(before);
    let rs = rb.drop_last().push(rb.last().push(x));
    let top = rb.len() - 1;
    let last = scan.len() - 1;
    assert(scan.drop_last() =~= before);
    assert(scan[scan.len() - 2] == before.last());
    assert(runs(scan) == rs);
    assert(rs[top] == rb[top].push(x));
    assert forall|e: Entry| before.contains(e) implies scan.contains(e) by {
        let i = choose|i: int| 0 <= i < before.len() && before[i] == e;
        assert(scan[i] == e);
    }
    assert forall|k: int| 0 <= k < rs.len() implies (#[trigger] rs[k]).len() > 0 && rs[k].len()
        == count_of(scan, rs[k][0].0) by {
        if k < top {
            assert(rs[k] == rb[k]);
            assert(rb[k][0].0 < rb[top][0].0);
        } else {
            assert(rs[k][0] == rb[top][0]);
        }
    }
    assert forall|k: int, m: int| 0 <= k < rs.len() && 0 <= m < rs[k].len() implies (
    #[trigger] rs[k][m]).0 == rs[k][0].0 && scan.contains(rs[k][m]) by {
        if k < top {
            assert(rs[k] == rb[k]);
            assert(before.contains(rb[k][m]));
        } else if m < rb[top].len() {
            assert(rs[k][m] == rb[top][m]);
            assert(before.contains(rb[top][m]));
        } else {
            assert(rs[k][m] == x);
            assert(scan[last] == x);
        }
    }
    assert forall|k: int, l: int| 0 <= k < l < rs.len() implies (#[trigger] rs[k])[0].0 < (
    #[trigger] rs[l])[0].0 by {
        assert(rs[k][0] == rb[k][0]);
        assert(rs[l][0] == rb[l][0]);
    }
    assert forall|i: int| 0 <= i < scan.len() implies #[trigger] in_some_run(rs, scan[i]) by {
        if i < last {
            assert(in_some_run(rb, before[i]));
            let k = choose|k: int| 0 <= k < rb.len() && (#[trigger] rb[k]).contains(before[i]);
            let m = choose|m: int| 0 <= m < rb[k].len() && rb[k][m] == before[i];
            if k < top {
                assert(rs[k] == rb[k]);
            } else {
                assert(rs[k][m] == scan[i]);
            }
            assert(rs[k].contains(scan[i]));
        } else {
            assert(rs[top][rb[top].len() as int] == scan[i]);
            assert(rs[top].contains(scan[i]));
        }
    }
}

/// A record with a larger identifier than every record before it starts a
/// run of its own.
proof fn lemma_run_starts(before: Seq<Entry>, x: Entry)
    requires
        forall|i: int| 0 <= i < before.len() ==> (#[trigger] before[i]).0 < x.0,
        runs_partition(runs(before), before),
    ensures
        runs(before.push(x)) == runs(before).push(seq![x]),
        runs_partition(runs(before.push(x)), before.push(x)),
{
    let scan = before.push(x);
    let rb = runs(before);
    let rs = rb.push(seq![x]);
    let top = rb.len() as int;
    let last = scan.len() - 1;
    assert(scan.drop_last() =~= before);
    if scan.len() >= 2 {
        assert(scan[scan.len() - 2] == before[before.len() - 1]);
    }
    assert(runs(scan) == rs);
    assert(rs[top] == seq![x]);
    lemma_count_of(before, x.0);
    assert forall|e: Entry| before.contains(e) implies scan.contains(e) && e.0 < x.0 by {
        let i = choose|i: int| 0 <= i < before.len() && before[i] == e;
        assert(scan[i] == e);
    }
    assert forall|k: int| 0 <= k < rs.len() implies (#[trigger] rs[k]).len() > 0 && rs[k].len()
        == count_of(scan, rs[k][0].0) by {
        if k < top {
            assert(rs[k] == rb[k]);
            assert(before.contains(rb[k][0]));
        }
    }
    assert forall|k: int, m: int| 0 <= k < rs.len() && 0 <= m < rs[k].len() implies (
    #[trigger] rs[k][m]).0 == rs[k][0].0 && scan.contains(rs[k][m]) by {
        if k < top {
            assert(rs[k] == rb[k]);
            assert(before.contains(rb[k][m]));
        } else {
            assert(scan[last] == x);
        }
    }
    assert forall|k: int, l: int| 0 <= k < l < rs.len() implies (#[trigger] rs[k])[0].0 < (
    #[trigger] rs[l])[0].0 by {
        assert(rs[k] == rb[k]);
        if l < top {
            assert(rs[l] == rb[l]);
        } else {
            assert(before.contains(rb[k][0]));
        }
    }
    assert forall|i: int| 0 <= i < scan.len() implies #[trigger] in_some_run(rs, scan[i]) by {
        if i < last {
            assert(in_some_run(rb, before[i]));
            let k = choose|k: int| 0 <= k < rb.len() && (#[trigger] rb[k]).contains(before[i]);
            assert(rs[k] == rb[k]);
            assert(rs[k].contains(scan[i]));
        } else {
            assert(rs[top][0] == scan[i]);
            assert(rs[top].contains(scan[i]));
        }
    }
}

/// The runs of a scan whose identifiers never descend partition it by
/// identifier.
pub proof fn lemma_runs_partition(scan: Seq<Entry>)
    requires
        ascending_ids(scan),
    ensures
        runs_partition(runs(scan), scan),
        scan.len() > 0 ==> runs(scan).len() > 0 && runs(scan).last()[0].0 == scan.last().0,
    decreases scan.len(),
{
    if scan.len() > 0 {
        let before = scan.drop_last();
        let x = scan.last();
        assert(scan =~= before.push(x));
        assert forall|i: int, j: int| 0 <= i < j < before.len() implies (
        #[trigger] before[i]).0 <= (#[trigger] before[j]).0 by {
            assert(scan[i].0 <= scan[j].0);
        }
        lemma_runs_partition(before);
        if scan.len() >= 2 && scan[scan.len() - 2].0 == x.0 {
            assert(before.last() == scan[scan.len() - 2]);
            lemma_run_grows(before, x);
        } else {
            assert forall|i: int| 0 <= i < before.len() implies (#[trigger] before[i]).0 < x.0 by {
                assert(before[i] == scan[i]);
                assert(scan[i].0 <= scan[scan.len() - 2].0);
                assert(scan[scan.len() - 2].0 <= scan[scan.len() - 1].0);
            }
            lemma_run_starts(before, x);
        }
    }
}

/// What holds of the group that a run of one identifier makes: it carries
/// that identifier, and its paths are the paths of the run, in ascending
/// order.
pub proof fn lemma_group_of(run: Seq<Entry>)
    requires
        run.len() > 0,
        forall|m: int| 0 <= m < run.len() ==> (#[trigger] run[m]).0 == run[0].0,
    ensures
        group_of(run).hash_id == run[0].0,
        group_of(run).paths.len() == run.len(),
        sorted_by(group_of(run).paths, path_order()),
        forall|p: Seq<char>| group_of(run).paths.contains(p) <==> run.contains((run[0].0, p)),
{
    broadcast use vstd::seq_lib::group_to_multiset_ensures;

    let leq = record_order();
    let sorted = run.sort_by(leq);
    let paths = group_of(run).paths;
    let id = run[0].0;
    lemma_record_order_total();
    run.lemma_sort_by_ensures(leq);
    assert(sorted.len() == run.len()) by {
        assert(sorted.to_multiset().len() == run.to_multiset().len());
    }
    assert forall|e: Entry| sorted.contains(e) <==> run.contains(e) by {
        assert(sorted.to_multiset().count(e) == run.to_multiset().count(e));
    }
    assert forall|i: int| 0 <= i < sorted.len() implies (#[trigger] sorted[i]).0 == id by {
        assert(sorted.contains(sorted[i]));
        let m = choose|m: int| 0 <= m < run.len() && run[m] == sorted[i];
        assert(run[m].0 == id);
    }
    assert forall|i: int, j: int| 0 <= i < j < paths.len() implies #[trigger] path_order()(
        paths[i],
        paths[j],
    ) by {
        assert(leq(sorted[i], sorted[j]));
    }
    assert forall|p: Seq<char>| paths.contains(p) <==> run.contains((id, p)) by {
        if paths.contains(p) {
            let i = choose|i: int| 0 <= i < paths.len() && paths[i] == p;
            assert(sorted[i] == (id, p));
            assert(sorted.contains((id, p)));
        }
        if run.contains((id, p)) {
            assert(sorted.contains((id, p)));
            let i = choose|i: int| 0 <= i < sorted.len() && sorted[i] == (id, p);
            assert(paths[i] == p);
        }
    }
}

/// Whether a group is that of one of the runs of two records or more.
pub open spec fn made_of_run(group: GroupView, rs: Seq<Seq<Entry>>) -> bool {
    exists|m: int| 0 <= m < rs.len() && (#[trigger] rs[m]).len() >= 2 && group == group_of(rs[m])
}

/// The groups are made of the runs of two records or more, one group for
/// each such run.
pub proof fn lemma_groups_of_runs(rs: Seq<Seq<Entry>>)
    ensures
        forall|k: int|
            0 <= k < groups_of_runs(rs).len() ==> made_of_run(#[trigger] groups_of_runs(rs)[k], rs),
        forall|m: int|
            0 <= m < rs.len() && (#[trigger] rs[m]).len() >= 2 ==> groups_of_runs(rs).contains(
                group_of(rs[m]),
            ),
    decreases rs.len(),
{
    if rs.len() > 0 {
        let rb = rs.drop_last();
        let top = rs.len() - 1;
        let gb = groups_of_runs(rb);
        let gs = groups_of_runs(rs);
        lemma_groups_of_runs(rb);
        assert forall|k: int| 0 <= k < gs.len() implies made_of_run(#[trigger] gs[k], rs) by {
            if k < gb.len() {
                assert(gs[k] == gb[k]);
                assert(made_of_run(gb[k], rb));
                let m = choose|m: int|
                    0 <= m < rb.len() && (#[trigger] rb[m]).len() >= 2 && gb[k] == group_of(rb[m]);
                assert(rs[m] == rb[m]);
            } else {
                assert(rs[top].len() >= 2 && gs[k] == group_of(rs[top]));
            }
        }
        assert forall|m: int|
            0 <= m < rs.len() && (#[trigger] rs[m]).len() >= 2 implies gs.contains(
            group_of(rs[m]),
        ) by {
            if m < top {
                assert(rb[m] == rs[m]);
                assert(gb.contains(group_of(rb[m])));
                let k = choose|k: int| 0 <= k < gb.len() && gb[k] == group_of(rb[m]);
                assert(gs[k] == gb[k]);
            } else {
                assert(gs[gs.len() - 1] == group_of(rs[m]));
            }
        }
    }
}

/// The groups come in the order of their runs: where the identifiers of the
/// runs ascend, so do those of the groups.
pub proof fn lemma_groups_ascend(rs: Seq<Seq<Entry>>)
    requires
        ascending_runs(rs),
    ensures
        forall|k: int, l: int|
            0 <= k < l < groups_of_runs(rs).len() ==> (#[trigger] groups_of_runs(rs)[k]).hash_id < (
            #[trigger] groups_of_runs(rs)[l]).hash_id,
    decreases rs.len(),
{
    if rs.len() > 0 {
        let rb = rs.drop_last();
        let top = rs.len() - 1;
        let gb = groups_of_runs(rb);
        let gs = groups_of_runs(rs);
        assert(ascending_runs(rb)) by {
            assert forall|k: int, l: int| 0 <= k < l < rb.len() implies (#[trigger] rb[k])[0].0 < (
            #[trigger] rb[l])[0].0 by {
                assert(rb[k] == rs[k] && rb[l] == rs[l]);
            }
        }
        lemma_groups_ascend(rb);
        lemma_groups_of_runs(rb);
        assert forall|k: int, l: int| 0 <= k < l < gs.len() implies (#[trigger] gs[k]).hash_id < (
        #[trigger] gs[l]).hash_id by {
            assert(gs[k] == gb[k]);
            if l < gb.len() {
                assert(gs[l] == gb[l]);
            } else {
                assert(made_of_run(gb[k], rb));
                let m = choose|m: int|
                    0 <= m < rb.len() && (#[trigger] rb[m]).len() >= 2 && gb[k] == group_of(rb[m]);
                assert(rb[m] == rs[m]);
                assert(rs[m][0].0 < rs[top][0].0);
            }
        }
    }
}

/// What holds of the group of one run of a scan whose identifiers never
/// descend: it holds the paths of all the records of the scan that carry its
/// identifier, in ascending order.
pub proof fn lemma_group_of_run(scan: Seq<Entry>, m: int)
    requires
        ascending_ids(scan),
        0 <= m < runs(scan).len(),
    ensures
        group_of(runs(scan)[m]).hash_id == runs(scan)[m][0].0,
        group_of(runs(scan)[m]).paths.len() == runs(scan)[m].len(),
        runs(scan)[m].len() == count_of(scan, runs(scan)[m][0].0),
        sorted_by(group_of(runs(scan)[m]).paths, path_order()),
        forall|p: Seq<char>|
            group_of(runs(scan)[m]).paths.contains(p) <==> scan.contains((runs(scan)[m][0].0, p)),
{
    let rs = runs(scan);
    let run = rs[m];
    let id = run[0].0;
    lemma_runs_partition(scan);
    assert forall|n: int| 0 <= n < run.len() implies (#[trigger] run[n]).0 == id by {
        assert(rs[m][n].0 == rs[m][0].0);
    }
    lemma_group_of(run);
    assert forall|p: Seq<char>| run.contains((id, p)) <==> scan.contains((id, p)) by {
        if run.contains((id, p)) {
            let n = choose|n: int| 0 <= n < run.len() && run[n] == (id, p);
            assert(scan.contains(rs[m][n]));
        }
        if scan.contains((id, p)) {
            let i = choose|i: int| 0 <= i < scan.len() && scan[i] == (id, p);
            assert(in_some_run(rs, scan[i]));
            let k = choose|k: int| 0 <= k < rs.len() && (#[trigger] rs[k]).contains(scan[i]);
            let n = choose|n: int| 0 <= n < rs[k].len() && rs[k][n] == scan[i];
            assert(rs[k][n].0 == rs[k][0].0);
            if k < m {
                assert(rs[k][0].0 < rs[m][0].0);
            } else if m < k {
                assert(rs[m][0].0 < rs[k][0].0);
            }
        }
    }
}

/// Whether one of the groups carries an identifier.
pub open spec fn has_group(groups: Seq<GroupView>, id: u32) -> bool {
    exists|k: int| 0 <= k < groups.len() && (#[trigger] groups[k]).hash_id == id
}

/// The duplicate groups of an ordered scan.
///
/// Where the identifiers of a scan never descend, as in the ordered scan of
/// the index: there is one group for each identifier that two records or
/// more carry, and none for any other; the identifiers of the groups ascend;
/// and a group holds the paths of all the records that carry its identifier,
/// each once for each such record, in ascending order.
pub proof fn lemma_groups_of_ordered_scan(scan: Seq<Entry>)
    requires
        ascending_ids(scan),
    ensures
        forall|k: int, l: int|
            0 <= k < l < groups_of(scan).len() ==> (#[trigger] groups_of(scan)[k]).hash_id < (
            #[trigger] groups_of(scan)[l]).hash_id,
        forall|k: int|
            0 <= k < groups_of(scan).len() ==> {
                let group = #[trigger] groups_of(scan)[k];
                &&& group.paths.len() >= 2
                &&& group.paths.len() == count_of(scan, group.hash_id)
                &&& sorted_by(group.paths, path_order())
                &&& forall|p: Seq<char>|
                    group.paths.contains(p) <==> scan.contains((group.hash_id, p))
            },
        forall|id: u32| count_of(scan, id) >= 2 <==> has_group(groups_of(scan), id),
{
    let rs = runs(scan);
    let gs = groups_of(scan);
    assert(ascending_runs(rs)) by {
        lemma_runs_partition(scan);
    }
    lemma_groups_ascend(rs);
    lemma_groups_of_runs(rs);
    assert forall|k: int| 0 <= k < gs.len() implies {
        let group = #[trigger] gs[k];
        &&& group.paths.len() >= 2
        &&& group.paths.len() == count_of(scan, group.hash_id)
        &&& sorted_by(group.paths, path_order())
        &&& forall|p: Seq<char>| group.paths.contains(p) <==> scan.contains((group.hash_id, p))
    } by {
        assert(made_of_run(gs[k], rs));
        let m = choose|m: int|
            0 <= m < rs.len() && (#[trigger] rs[m]).len() >= 2 && gs[k] == group_of(rs[m]);
        lemma_group_of_run(scan, m);
    }
    assert forall|id: u32| count_of(scan, id) >= 2 implies has_group(gs, id) by {
        lemma_count_of(scan, id);
        let i = choose|i: int| 0 <= i < scan.len() && (#[trigger] scan[i]).0 == id;
        assert(in_some_run(rs, scan[i])) by {
            lemma_runs_partition(scan);
        }
        let m = choose|m: int| 0 <= m < rs.len() && (#[trigger] rs[m]).contains(scan[i]);
        let n = choose|n: int| 0 <= n < rs[m].len() && rs[m][n] == scan[i];
        assert(rs[m][0].0 == id) by {
            lemma_runs_partition(scan);
            assert(rs[m][n].0 == rs[m][0].0);
        }
        lemma_group_of_run(scan, m);
        assert(gs.contains(group_of(rs[m])));
        let k = choose|k: int| 0 <= k < gs.len() && gs[k] == group_of(rs[m]);
        assert(gs[k].hash_id == id);
    }
    assert forall|id: u32| has_group(gs, id) implies count_of(scan, id) >= 2 by {
        let k = choose|k: int| 0 <= k < gs.len() && (#[trigger] gs[k]).hash_id == id;
        assert(gs[k].paths.len() == count_of(scan, id));
    }
}

} // verus!
