//! Test results, filed by scale factor, branch and commit time.
use vstd::prelude::*;

use crate::sorted::{
    ascending, entry_views, lemma_ascending_distinct, lemma_map_of, map_of, SortKey, SortedMap,
};

verus! {

/// One result of a test.
#[derive(Debug)]
pub struct TestResult {
    pub build_number: i32,
    pub builder_id: i32,
    pub ctime: i64,
    pub metric: String,
    pub revision: String,
    pub scale: u32,
    pub timestamp: String,
}

#[verifier::ext_equal]
pub struct TestResultView {
    pub build_number: i32,
    pub builder_id: i32,
    pub ctime: i64,
    pub metric: Seq<char>,
    pub revision: Seq<char>,
    pub scale: u32,
    pub timestamp: Seq<char>,
}

impl View for TestResult {
    type V = TestResultView;

    open spec fn view(&self) -> TestResultView {
        TestResultView {
            build_number: self.build_number,
            builder_id: self.builder_id,
            ctime: self.ctime,
            metric: self.metric@,
            revision: self.revision@,
            scale: self.scale,
            timestamp: self.timestamp@,
        }
    }
}

/// The results of one branch at one scale factor: by commit time, and as a list.
pub struct ResultsByTime {
    pub sorted: SortedMap<i64, TestResult>,
    pub reversed: Vec<TestResult>,
}

#[verifier::ext_equal]
pub struct ResultsByTimeView {
    pub sorted: Map<i64, TestResultView>,
    pub reversed: Seq<TestResultView>,
}

/// The views of a list of results.
pub open spec fn result_views(s: Seq<TestResult>) -> Seq<TestResultView> {
    Seq::new(s.len(), |i: int| s[i]@)
}

impl View for ResultsByTime {
    type V = ResultsByTimeView;

    open spec fn view(&self) -> ResultsByTimeView {
        ResultsByTimeView { sorted: self.sorted@, reversed: result_views(self.reversed@) }
    }
}

pub type ResultsByBranch = SortedMap<String, ResultsByTime>;

pub type ResultsByScale = SortedMap<u32, ResultsByBranch>;

pub type ResultsByBranchView = Map<Seq<char>, ResultsByTimeView>;

pub type ResultsByScaleView = Map<u32, ResultsByBranchView>;

/// The results of a branch before any is filed.
pub open spec fn no_times() -> ResultsByTimeView {
    ResultsByTimeView { sorted: Map::empty(), reversed: Seq::empty() }
}

/// The branches that have results at a scale factor.
pub open spec fn branches_at(m: ResultsByScaleView, scale: u32) -> ResultsByBranchView {
    if m.contains_key(scale) {
        m[scale]
    } else {
        Map::empty()
    }
}

/// The results that a branch has at a scale factor.
pub open spec fn times_at(
    m: ResultsByScaleView,
    scale: u32,
    branch: Seq<char>,
) -> ResultsByTimeView {
    let branches = branches_at(m, scale);
    if branches.contains_key(branch) {
        branches[branch]
    } else {
        no_times()
    }
}

/// `m` with `r` filed under its scale factor, `branch` and its commit time, in place of the
/// result that stood there.
pub open spec fn with_result(
    m: ResultsByScaleView,
    branch: Seq<char>,
    r: TestResultView,
) -> ResultsByScaleView {
    let times = times_at(m, r.scale, branch);
    let new_times = ResultsByTimeView { sorted: times.sorted.insert(r.ctime, r), ..times };
    m.insert(r.scale, branches_at(m, r.scale).insert(branch, new_times))
}

/// The greatest of a finite set of times.
pub open spec fn greatest(s: Set<i64>) -> i64 {
    choose|k: i64| s.contains(k) && forall|j: i64| s.contains(j) ==> j <= k
}

/// The result filed under the time `k`, with that time.
pub open spec fn dated(m: Map<i64, TestResultView>, k: i64) -> TestResultView {
    TestResultView { ctime: k, ..m[k] }
}

/// The results of `m`, the one with the latest time first, each with the time that it is filed
/// under.
pub open spec fn newest_first(m: Map<i64, TestResultView>) -> Seq<TestResultView>
    decreases m.dom().len(),
    when m.dom().finite()
{
    let k = greatest(m.dom());
    if m.contains_key(k) {
        seq![dated(m, k)] + newest_first(m.remove(k))
    } else {
        Seq::empty()
    }
}

/// The results of a branch with the list filled: newest first, behind what the list held.
pub open spec fn listed_times(t: ResultsByTimeView) -> ResultsByTimeView {
    ResultsByTimeView { reversed: t.reversed + newest_first(t.sorted), ..t }
}

/// All results of a scale factor with their lists filled.
pub open spec fn listed_branches(b: ResultsByBranchView) -> ResultsByBranchView {
    b.map_values(|t: ResultsByTimeView| listed_times(t))
}

/// All results with their lists filled.
pub open spec fn listed(m: ResultsByScaleView) -> ResultsByScaleView {
    m.map_values(|b: ResultsByBranchView| listed_branches(b))
}

/// Whether every branch has finitely many results.
pub open spec fn finite_times(b: ResultsByBranchView) -> bool {
    forall|name: Seq<char>| #[trigger] b.contains_key(name) ==> b[name].sorted.dom().finite()
}

/// Files a result under its scale factor, its branch and its commit time. A result that stood
/// there is replaced.
pub fn insert_result(results: &mut ResultsByScale, branch: String, result: TestResult)
    ensures
        final(results)@ == with_result(old(results)@, branch@, result@),
{
    let ghost m = results@;
    let scale: u32 = result.scale;
    let mut branches: ResultsByBranch = match results.take(&scale) {
        Some(b) => b,
        None => SortedMap::new(),
    };
    assert(branches@ == branches_at(m, scale));
    let mut times: ResultsByTime = match branches.take(&branch) {
        Some(t) => t,
        None => ResultsByTime { sorted: SortedMap::new(), reversed: Vec::new() },
    };
    assert(times@ =~= times_at(m, scale, branch@));
    let ghost new_times = ResultsByTimeView {
        sorted: times@.sorted.insert(result.ctime, result@),
        ..times@
    };
    let ghost name = branch@;
    times.sorted.insert(result.ctime, result);
    assert(times@ =~= new_times);
    branches.insert(branch, times);
    assert(branches@ =~= branches_at(m, scale).insert(name, new_times));
    results.insert(scale, branches);
    assert(results@ =~= with_result(m, name, result@));
}

/// The newest result of an ascending list is its last entry.
proof fn lemma_newest_is_last(s: Seq<(i64, TestResultView)>)
    requires
        ascending::<i64, TestResultView>(s),
    ensures
        s.len() == 0 ==> newest_first(map_of(s)) == Seq::<TestResultView>::empty(),
        s.len() > 0 ==> newest_first(map_of(s)) == seq![
            TestResultView { ctime: s.last().0, ..s.last().1 },
        ] + newest_first(map_of(s.drop_last())),
{
    lemma_ascending_distinct::<i64, TestResultView>(s);
    lemma_map_of(s);
    let m = map_of(s);
    if s.len() > 0 {
        let last = s.len() - 1;
        let k = s[last].0;
        assert(m.contains_key(k) && m[k] == s[last].1);
        assert forall|j: i64| m.dom().contains(j) implies j <= k by {
            assert(m.contains_key(j));
            let i = choose|i: int| 0 <= i < s.len() && (#[trigger] s[i]).0 == j;
            if i < last {
                assert(<i64 as SortKey>::before(s[i].0, s[last].0));
            }
        }
        assert(m.dom().contains(k));
        let g = greatest(m.dom());
        assert(m.dom().contains(g) && k <= g);
        assert(g == k);
        let rest = s.drop_last();
        assert(!map_of(rest).contains_key(k)) by {
            assert(forall|i: int| 0 <= i < rest.len() ==> rest[i] == s[i]);
            lemma_map_of(rest);
            if map_of(rest).contains_key(k) {
                let i = choose|i: int| 0 <= i < rest.len() && (#[trigger] rest[i]).0 == k;
                assert(s[i].0 != s[last].0);
            }
        }
        assert(m.remove(k) =~= map_of(rest));
    }
}

fn copy_result(r: &TestResult, ctime: i64) -> (c: TestResult)
    ensures
        c@ == (TestResultView { ctime, ..r@ }),
{
    TestResult {
        build_number: r.build_number,
        builder_id: r.builder_id,
        ctime,
        metric: r.metric.clone(),
        revision: r.revision.clone(),
        scale: r.scale,
        timestamp: r.timestamp.clone(),
    }
}

/// Puts copies of a branch's results behind the list that it has, the newest first.
fn list_times(times: ResultsByTime) -> (r: ResultsByTime)
    ensures
        r@ == listed_times(times@),
        times@.sorted.dom().finite(),
{
    let ghost before = times@;
    let ResultsByTime { sorted, mut reversed } = times;
    let entries = sorted.entries();
    let ghost s = entry_views(entries@);
    let mut left: usize = entries.len();
    assert(s.take(left as int) =~= s);
    while left > 0
        invariant
            left <= entries@.len(),
            s == entry_views(entries@),
            s.len() == entries@.len(),
            ascending::<i64, TestResultView>(s),
            result_views(reversed@) + newest_first(map_of(s.take(left as int))) == before.reversed
                + newest_first(map_of(s)),
        decreases left,
    {
        let ghost done = result_views(reversed@);
        left -= 1;
        let (ctime, result) = &entries[left];
        let copy = copy_result(result, *ctime);
        let ghost view = copy@;
        reversed.push(copy);
        proof {
            let now = s.take(left + 1);
            assert forall|i: int, j: int| 0 <= i < j < now.len() implies <i64 as SortKey>::before(
                (#[trigger] now[i]).0,
                (#[trigger] now[j]).0,
            ) by {
                assert(now[i] == s[i] && now[j] == s[j]);
            }
            lemma_newest_is_last(now);
            assert(now.drop_last() =~= s.take(left as int));
            assert(now.last() == s[left as int]);
            assert(result_views(reversed@) =~= done + seq![view]);
            assert((done + seq![view]) + newest_first(map_of(s.take(left as int))) =~= done + (seq![
                view,
            ] + newest_first(map_of(s.take(left as int)))));
        }
    }
    proof {
        let none = s.take(0);
        assert(ascending::<i64, TestResultView>(none));
        lemma_newest_is_last(none);
        assert(result_views(reversed@) + Seq::<TestResultView>::empty() =~= result_views(reversed@));
    }
    ResultsByTime { sorted, reversed }
}

/// Fills the lists of all branches at one scale factor.
fn list_branches(branches: ResultsByBranch) -> (r: ResultsByBranch)
    ensures
        r@ == listed_branches(branches@),
        finite_times(branches@),
{
    let ghost all = branches@;
    let mut rest = branches;
    let mut done: ResultsByBranch = SortedMap::new();
    loop
        invariant
            all == branches@,
            forall|b: Seq<char>|
                #[trigger] all.contains_key(b) <==> rest@.contains_key(b) || done@.contains_key(b),
            forall|b: Seq<char>| #[trigger] rest@.contains_key(b) ==> rest@[b] == all[b],
            forall|b: Seq<char>|
                #[trigger] done@.contains_key(b) ==> done@[b] == listed_times(all[b])
                    && all[b].sorted.dom().finite(),
        decreases rest@.dom().len(),
    {
        let ghost left = rest@;
        match rest.pop_last() {
            Some((name, times)) => {
                let ghost n = name@;
                assert(all.contains_key(n));
                let ghost filed = done@;
                done.insert(name, list_times(times));
                assert(rest@ == left.remove(n));
                assert(done@ == filed.insert(n, listed_times(all[n])));
            },
            None => {
                assert(done@ =~= listed_branches(all));
                return done;
            },
        }
    }
}

/// Fills the list of every branch at every scale factor: its results, the newest first.
pub fn list_results(results: ResultsByScale) -> (r: ResultsByScale)
    ensures
        r@ == listed(results@),
        forall|k: u32| #[trigger] results@.contains_key(k) ==> finite_times(results@[k]),
        forall|k: u32| #[trigger] r@.contains_key(k) <==> results@.contains_key(k),
        forall|k: u32, b: Seq<char>|
            results@.contains_key(k) ==> (#[trigger] r@[k].contains_key(b)
                <==> results@[k].contains_key(b)),
        forall|k: u32, b: Seq<char>|
            results@.contains_key(k) && #[trigger] results@[k].contains_key(b) ==> r@[k][b].sorted
                == results@[k][b].sorted,
{
    let ghost all = results@;
    let mut rest = results;
    let mut done: ResultsByScale = SortedMap::new();
    loop
        invariant
            all == results@,
            forall|k: u32|
                #[trigger] all.contains_key(k) <==> rest@.contains_key(k) || done@.contains_key(k),
            forall|k: u32| #[trigger] rest@.contains_key(k) ==> rest@[k] == all[k],
            forall|k: u32|
                #[trigger] done@.contains_key(k) ==> done@[k] == listed_branches(all[k])
                    && finite_times(all[k]),
        decreases rest@.dom().len(),
    {
        let ghost left = rest@;
        match rest.pop_last() {
            Some((scale, branches)) => {
                assert(all.contains_key(scale));
                let ghost filed = done@;
                done.insert(scale, list_branches(branches));
                assert(rest@ == left.remove(scale));
                assert(done@ == filed.insert(scale, listed_branches(all[scale])));
            },
            None => {
                assert(done@ =~= listed(all));
                return done;
            },
        }
    }
}

/// Whether every result is filed under its own scale factor and its own commit time.
pub open spec fn filed(m: ResultsByScaleView) -> bool {
    forall|scale: u32, branch: Seq<char>, ctime: i64|
        #[trigger] times_at(m, scale, branch).sorted.contains_key(ctime) ==> {
            &&& times_at(m, scale, branch).sorted[ctime].scale == scale
            &&& times_at(m, scale, branch).sorted[ctime].ctime == ctime
        }
}

/// Whether each branch has finitely many results, and no list is filled yet.
pub open spec fn unlisted(m: ResultsByScaleView) -> bool {
    forall|scale: u32, branch: Seq<char>|
        (#[trigger] times_at(m, scale, branch)).sorted.dom().finite() && times_at(
            m,
            scale,
            branch,
        ).reversed.len() == 0
}

/// Nothing is filed in an empty map.
pub proof fn law_empty_is_filed()
    ensures
        filed(Map::<u32, ResultsByBranchView>::empty()),
        unlisted(Map::<u32, ResultsByBranchView>::empty()),
{
}

/// A result that was filed is found under its scale factor, its branch and its commit time.
/// Whatever is filed under another scale factor, branch or commit time stays as it was, and no
/// list changes.
pub proof fn law_filed_result_is_found(
    m: ResultsByScaleView,
    branch: Seq<char>,
    r: TestResultView,
    scale: u32,
    other: Seq<char>,
    ctime: i64,
)
    ensures
        times_at(with_result(m, branch, r), r.scale, branch).sorted.contains_key(r.ctime),
        times_at(with_result(m, branch, r), r.scale, branch).sorted[r.ctime] == r,
        (scale != r.scale || other != branch || ctime != r.ctime) ==> {
            let before = times_at(m, scale, other).sorted;
            let after = times_at(with_result(m, branch, r), scale, other).sorted;
            &&& after.contains_key(ctime) == before.contains_key(ctime)
            &&& before.contains_key(ctime) ==> after[ctime] == before[ctime]
        },
        times_at(with_result(m, branch, r), scale, other).reversed == times_at(
            m,
            scale,
            other,
        ).reversed,
{
}

/// Filing a result keeps every result under its own scale factor and commit time.
pub proof fn law_filing_keeps_order(m: ResultsByScaleView, branch: Seq<char>, r: TestResultView)
    requires
        filed(m),
    ensures
        filed(with_result(m, branch, r)),
{
    let n = with_result(m, branch, r);
    assert forall|scale: u32, other: Seq<char>, ctime: i64|
        #[trigger] times_at(n, scale, other).sorted.contains_key(ctime) implies {
        &&& times_at(n, scale, other).sorted[ctime].scale == scale
        &&& times_at(n, scale, other).sorted[ctime].ctime == ctime
    } by {
        law_filed_result_is_found(m, branch, r, scale, other, ctime);
        if scale != r.scale || other != branch || ctime != r.ctime {
            assert(times_at(m, scale, other).sorted.contains_key(ctime));
        }
    }
}

/// Filing a result fills no list.
pub proof fn law_filing_lists_nothing(m: ResultsByScaleView, branch: Seq<char>, r: TestResultView)
    requires
        unlisted(m),
    ensures
        unlisted(with_result(m, branch, r)),
{
    let n = with_result(m, branch, r);
    assert forall|scale: u32, other: Seq<char>|
        (#[trigger] times_at(n, scale, other)).sorted.dom().finite() && times_at(
            n,
            scale,
            other,
        ).reversed.len() == 0 by {
        law_filed_result_is_found(m, branch, r, scale, other, r.ctime);
        assert(times_at(m, scale, other).sorted.dom().finite());
        if scale == r.scale && other == branch {
            assert(times_at(n, scale, other).sorted == times_at(m, scale, other).sorted.insert(
                r.ctime,
                r,
            ));
        } else {
            assert(times_at(n, scale, other) == times_at(m, scale, other));
        }
    }
}

/// Of two results for the same place the one that was filed later stays.
pub proof fn law_later_result_replaces(
    m: ResultsByScaleView,
    branch: Seq<char>,
    first: TestResultView,
    second: TestResultView,
)
    requires
        first.scale == second.scale,
        first.ctime == second.ctime,
    ensures
        with_result(with_result(m, branch, first), branch, second) == with_result(
            m,
            branch,
            second,
        ),
{
    let one = with_result(m, branch, first);
    let two = with_result(one, branch, second);
    let direct = with_result(m, branch, second);
    assert(times_at(one, second.scale, branch).sorted.insert(second.ctime, second) =~= times_at(
        m,
        second.scale,
        branch,
    ).sorted.insert(second.ctime, second));
    assert(branches_at(two, second.scale) =~= branches_at(direct, second.scale));
    assert(two =~= direct);
}

/// Results for different places can be filed in either order.
pub proof fn law_filing_commutes(
    m: ResultsByScaleView,
    branch1: Seq<char>,
    r1: TestResultView,
    branch2: Seq<char>,
    r2: TestResultView,
)
    requires
        r1.scale != r2.scale || branch1 != branch2 || r1.ctime != r2.ctime,
    ensures
        with_result(with_result(m, branch1, r1), branch2, r2) == with_result(
            with_result(m, branch2, r2),
            branch1,
            r1,
        ),
{
    let a = with_result(with_result(m, branch1, r1), branch2, r2);
    let b = with_result(with_result(m, branch2, r2), branch1, r1);
    assert(a.dom() =~= b.dom());
    assert forall|scale: u32| #[trigger] a.contains_key(scale) implies a[scale] == b[scale] by {
        assert(a[scale].dom() =~= b[scale].dom());
        assert forall|branch: Seq<char>| #[trigger] a[scale].contains_key(branch) implies a[scale][branch]
            == b[scale][branch] by {
            assert(a[scale][branch].sorted =~= b[scale][branch].sorted);
        }
        assert(a[scale] =~= b[scale]);
    }
    assert(a =~= b);
}

/// Every nonempty finite set of times has a greatest one.
proof fn lemma_greatest(s: Set<i64>)
    requires
        s.finite(),
        s.len() > 0,
    ensures
        s.contains(greatest(s)),
        forall|j: i64| s.contains(j) ==> j <= greatest(s),
    decreases s.len(),
{
    let x = s.choose();
    let rest = s.remove(x);
    if rest.len() == 0 {
        assert(forall|j: i64| s.contains(j) ==> j == x) by {
            assert forall|j: i64| s.contains(j) implies j == x by {
                if j != x {
                    assert(rest.contains(j));
                    assert(rest.len() > 0) by {
                        if rest.len() == 0 {
                            rest.lemma_len0_is_empty();
                        }
                    }
                }
            }
        }
        assert(s.contains(x) && forall|j: i64| s.contains(j) ==> j <= x);
    } else {
        lemma_greatest(rest);
        let g = greatest(rest);
        let k = if x > g {
            x
        } else {
            g
        };
        assert forall|j: i64| s.contains(j) implies j <= k by {
            if j != x {
                assert(rest.contains(j));
            }
        }
        assert(s.contains(k));
    }
}

/// The list of a branch is as long as the branch has results. Each of its entries is a result of
/// the branch, with the time that it is filed under, and a later time stands before an earlier
/// one.
pub proof fn law_newest_first(m: Map<i64, TestResultView>)
    requires
        m.dom().finite(),
    ensures
        newest_first(m).len() == m.dom().len(),
        forall|i: int, j: int|
            0 <= i < j < newest_first(m).len() ==> (#[trigger] newest_first(m)[i]).ctime > (
            #[trigger] newest_first(m)[j]).ctime,
        forall|i: int|
            0 <= i < newest_first(m).len() ==> m.contains_key(
                (#[trigger] newest_first(m)[i]).ctime,
            ) && newest_first(m)[i] == dated(m, newest_first(m)[i].ctime),
    decreases m.dom().len(),
{
    let list = newest_first(m);
    if m.dom().len() > 0 {
        lemma_greatest(m.dom());
        let k = greatest(m.dom());
        let rest = m.remove(k);
        law_newest_first(rest);
        let tail = newest_first(rest);
        assert(list == seq![dated(m, k)] + tail);
        assert forall|i: int| 0 <= i < list.len() implies m.contains_key((#[trigger] list[i]).ctime)
            && list[i] == dated(m, list[i].ctime) by {
            if i > 0 {
                assert(list[i] == tail[i - 1]);
                assert(rest.contains_key(tail[i - 1].ctime));
            }
        }
        assert forall|i: int, j: int| 0 <= i < j < list.len() implies (#[trigger] list[i]).ctime > (
        #[trigger] list[j]).ctime by {
            assert(list[j] == tail[j - 1]);
            assert(rest.contains_key(tail[j - 1].ctime));
            assert(m.dom().contains(tail[j - 1].ctime));
            if i > 0 {
                assert(list[i] == tail[i - 1]);
            }
        }
    } else {
        m.dom().lemma_len0_is_empty();
    }
}

/// Every result of a branch stands in its list, with the time that it is filed under.
pub proof fn law_every_result_is_listed(m: Map<i64, TestResultView>, ctime: i64)
    requires
        m.dom().finite(),
        m.contains_key(ctime),
    ensures
        newest_first(m).contains(dated(m, ctime)),
    decreases m.dom().len(),
{
    assert(m.dom().contains(ctime));
    if m.dom().len() == 0 {
        m.dom().lemma_len0_is_empty();
    }
    lemma_greatest(m.dom());
    let k = greatest(m.dom());
    let rest = m.remove(k);
    let list = newest_first(m);
    assert(list == seq![dated(m, k)] + newest_first(rest));
    if ctime == k {
        assert(list[0] == dated(m, k));
    } else {
        law_every_result_is_listed(rest, ctime);
        assert(dated(rest, ctime) == dated(m, ctime));
        let tail = newest_first(rest);
        let i = choose|i: int| 0 <= i < tail.len() && tail[i] == dated(m, ctime);
        assert(list[i + 1] == tail[i]);
    }
}

/// Filing a result puts it under its own scale factor, branch and commit time. The scale factors,
/// branches and times that there were stay, with all that stood there, and no other is added.
pub proof fn law_filing_changes_one_place(
    m: ResultsByScaleView,
    branch: Seq<char>,
    r: TestResultView,
    scale: u32,
    other: Seq<char>,
    ctime: i64,
)
    ensures
        ({
            let n = with_result(m, branch, r);
            let had = m.contains_key(r.scale) && m[r.scale].contains_key(branch);
            &&& n.contains_key(scale) <==> scale == r.scale || m.contains_key(scale)
            &&& scale != r.scale && m.contains_key(scale) ==> n[scale] == m[scale]
            &&& n[r.scale].contains_key(other) <==> other == branch || (m.contains_key(r.scale)
                && m[r.scale].contains_key(other))
            &&& other != branch && m.contains_key(r.scale) && m[r.scale].contains_key(other)
                ==> n[r.scale][other] == m[r.scale][other]
            &&& n[r.scale][branch].sorted.contains_key(ctime) <==> ctime == r.ctime || (had
                && m[r.scale][branch].sorted.contains_key(ctime))
            &&& ctime != r.ctime && had && m[r.scale][branch].sorted.contains_key(ctime)
                ==> n[r.scale][branch].sorted[ctime] == m[r.scale][branch].sorted[ctime]
            &&& n[r.scale][branch].sorted[r.ctime] == r
            &&& had ==> n[r.scale][branch].reversed == m[r.scale][branch].reversed
            &&& !had ==> n[r.scale][branch].reversed.len() == 0
        }),
{
}

/// Filling the lists keeps every scale factor, every branch of it, and every result under its
/// commit time, and adds none. What a list held stays at its front.
pub proof fn law_listing_keeps_all(m: ResultsByScaleView, scale: u32, branch: Seq<char>)
    ensures
        listed(m).contains_key(scale) <==> m.contains_key(scale),
        m.contains_key(scale) ==> (listed(m)[scale].contains_key(branch)
            <==> m[scale].contains_key(branch)),
        m.contains_key(scale) && m[scale].contains_key(branch) ==> {
            let before = m[scale][branch];
            let after = listed(m)[scale][branch];
            &&& after.sorted == before.sorted
            &&& before.reversed.is_prefix_of(after.reversed)
        },
{
    if m.contains_key(scale) && m[scale].contains_key(branch) {
        let before = m[scale][branch];
        let after = listed(m)[scale][branch];
        assert(after == listed_times(before));
        assert(after.reversed.subrange(0, before.reversed.len() as int) =~= before.reversed);
    }
}

/// Filling the list of a branch puts one entry behind what the list held for each result of the
/// branch. Each entry has the commit time that its result is filed under and is that result in
/// all else; every result has one; and a later time stands before an earlier one.
pub proof fn law_listing_is_complete(
    m: ResultsByScaleView,
    scale: u32,
    branch: Seq<char>,
    ctime: i64,
)
    requires
        m.contains_key(scale),
        m[scale].contains_key(branch),
        m[scale][branch].sorted.dom().finite(),
    ensures
        ({
            let filed = m[scale][branch].sorted;
            let start = m[scale][branch].reversed.len() as int;
            let list = listed(m)[scale][branch].reversed;
            &&& list.len() == start + filed.dom().len()
            &&& forall|i: int|
                start <= i < list.len() ==> {
                    let entry = #[trigger] list[i];
                    let result = filed[entry.ctime];
                    &&& filed.contains_key(entry.ctime)
                    &&& entry.build_number == result.build_number
                    &&& entry.builder_id == result.builder_id
                    &&& entry.metric == result.metric
                    &&& entry.revision == result.revision
                    &&& entry.scale == result.scale
                    &&& entry.timestamp == result.timestamp
                }
            &&& filed.contains_key(ctime) ==> exists|i: int|
                start <= i < list.len() && (#[trigger] list[i]).ctime == ctime
            &&& forall|i: int, j: int|
                start <= i < j < list.len() ==> (#[trigger] list[i]).ctime > (#[trigger] list[j]).ctime
        }),
{
    let filed = m[scale][branch].sorted;
    let held = m[scale][branch].reversed;
    let start = held.len() as int;
    let list = listed(m)[scale][branch].reversed;
    let added = newest_first(filed);
    assert(list == held + added);
    law_newest_first(filed);
    assert forall|i: int| start <= i < list.len() implies #[trigger] list[i] == added[i - start] by {}
    if filed.contains_key(ctime) {
        law_every_result_is_listed(filed, ctime);
        let i = choose|i: int| 0 <= i < added.len() && added[i] == dated(filed, ctime);
        assert(list[start + i].ctime == ctime);
    }
}

/// The view of a result is its fields.
pub proof fn law_result_view(r: TestResult)
    ensures
        r@.build_number == r.build_number,
        r@.builder_id == r.builder_id,
        r@.ctime == r.ctime,
        r@.metric == r.metric@,
        r@.revision == r.revision@,
        r@.scale == r.scale,
        r@.timestamp == r.timestamp@,
{
}

/// The view of a branch's results is its map, and its list entry by entry.
pub proof fn law_times_view(t: ResultsByTime)
    ensures
        t@.sorted == t.sorted@,
        t@.reversed.len() == t.reversed@.len(),
        forall|i: int| 0 <= i < t.reversed@.len() ==> #[trigger] t@.reversed[i] == t.reversed@[i]@,
{
}

} // verus!
