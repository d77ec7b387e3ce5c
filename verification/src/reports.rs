//! Conformance reports: every fixture is run, the runs are ordered by
//! fixture name and counted.

use vstd::prelude::*;

use crate::text::{digits_of, push_digits, str_eq};
use crate::vectors::{
    execute_fixture, fixture_addresses_split_cleanly, fixture_outcome, Fixture, FixtureRun,
    FixtureRunView,
};

verus! {

broadcast use vstd::seq_lib::group_to_multiset_ensures;

/// Whether text `a` comes before text `b`: compared character by character,
/// a proper prefix first.
pub open spec fn text_lt(a: Seq<char>, b: Seq<char>) -> bool
    decreases a.len(),
{
    if a.len() == 0 {
        b.len() > 0
    } else if b.len() == 0 {
        false
    } else if a[0] != b[0] {
        (a[0] as int) < (b[0] as int)
    } else {
        text_lt(a.drop_first(), b.drop_first())
    }
}

proof fn lemma_text_lt_skip(a: Seq<char>, b: Seq<char>, i: int)
    requires
        0 <= i < a.len(),
        i < b.len(),
        a[i] == b[i],
    ensures
        text_lt(a.skip(i), b.skip(i)) == text_lt(a.skip(i + 1), b.skip(i + 1)),
{
    assert(a.skip(i).drop_first() =~= a.skip(i + 1));
    assert(b.skip(i).drop_first() =~= b.skip(i + 1));
}

/// Whether text `a` comes before text `b` (see `text_lt`).
pub fn text_less(a: &str, b: &str) -> (r: bool)
    ensures
        r == text_lt(a@, b@),
{
    let n = a.unicode_len();
    let m = b.unicode_len();
    let mut i: usize = 0;
    assert(a@.skip(0) =~= a@);
    assert(b@.skip(0) =~= b@);
    while i < n && i < m && a.get_char(i) == b.get_char(i)
        invariant
            i <= n,
            i <= m,
            n == a@.len(),
            m == b@.len(),
            text_lt(a@, b@) == text_lt(a@.skip(i as int), b@.skip(i as int)),
        decreases n - i,
    {
        proof {
            lemma_text_lt_skip(a@, b@, i as int);
        }
        i = i + 1;
    }
    if i == n {
        i < m
    } else if i == m {
        false
    } else {
        assert(a@.skip(i as int)[0] == a@[i as int]);
        assert(b@.skip(i as int)[0] == b@[i as int]);
        (a.get_char(i) as u32) < (b.get_char(i) as u32)
    }
}

/// No text comes before itself.
pub proof fn lemma_text_lt_irreflexive(a: Seq<char>)
    ensures
        !text_lt(a, a),
    decreases a.len(),
{
    if a.len() > 0 {
        lemma_text_lt_irreflexive(a.drop_first());
    }
}

/// The order of texts is transitive.
pub proof fn lemma_text_lt_transitive(a: Seq<char>, b: Seq<char>, c: Seq<char>)
    requires
        text_lt(a, b),
        text_lt(b, c),
    ensures
        text_lt(a, c),
    decreases a.len(),
{
    if a.len() > 0 && b.len() > 0 && c.len() > 0 && a[0] == b[0] && b[0] == c[0] {
        lemma_text_lt_transitive(a.drop_first(), b.drop_first(), c.drop_first());
    }
}

/// Of two different texts, one comes before the other.
pub proof fn lemma_text_lt_total(a: Seq<char>, b: Seq<char>)
    requires
        a != b,
    ensures
        text_lt(a, b) || text_lt(b, a),
    decreases a.len(),
{
    if a.len() > 0 && b.len() > 0 && a[0] == b[0] {
        if a.drop_first() == b.drop_first() {
            assert(a =~= seq![a[0]] + a.drop_first());
            assert(b =~= seq![b[0]] + b.drop_first());
        }
        lemma_text_lt_total(a.drop_first(), b.drop_first());
    } else if a.len() > 0 && b.len() > 0 {
        assert((a[0] as int) != (b[0] as int));
    } else if a.len() == 0 && b.len() == 0 {
        assert(a =~= b);
    }
}

/// `s` with `r` inserted after every run whose name does not come after
/// `r`'s name.
pub open spec fn insert_by_name(s: Seq<FixtureRunView>, r: FixtureRunView) -> Seq<FixtureRunView>
    decreases s.len(),
{
    if s.len() > 0 && text_lt(r.name, s.last().name) {
        insert_by_name(s.drop_last(), r).push(s.last())
    } else {
        s.push(r)
    }
}

/// The runs ordered by name, runs of equal names in their given order.
pub open spec fn sorted_by_name(rs: Seq<FixtureRunView>) -> Seq<FixtureRunView>
    decreases rs.len(),
{
    if rs.len() == 0 {
        Seq::empty()
    } else {
        insert_by_name(sorted_by_name(rs.drop_last()), rs.last())
    }
}

/// Whether no run of `s` has a name that comes before an earlier run's name.
pub open spec fn ordered_by_name(s: Seq<FixtureRunView>) -> bool {
    forall|i: int, j: int| 0 <= i < j < s.len() ==> !text_lt(#[trigger] s[j].name, #[trigger] s[i].name)
}

/// The views of a list of runs.
pub open spec fn run_views(v: Seq<FixtureRun>) -> Seq<FixtureRunView> {
    v.map_values(|r: FixtureRun| r@)
}

proof fn lemma_insert_by_name_facts(s: Seq<FixtureRunView>, r: FixtureRunView)
    requires
        ordered_by_name(s),
    ensures
        ordered_by_name(insert_by_name(s, r)),
        insert_by_name(s, r).to_multiset() == s.to_multiset().insert(r),
        insert_by_name(s, r).len() == s.len() + 1,
        forall|k: int|
            0 <= k < insert_by_name(s, r).len() ==> #[trigger] insert_by_name(s, r)[k] == r
                || s.contains(insert_by_name(s, r)[k]),
    decreases s.len(),
{
    if s.len() > 0 && text_lt(r.name, s.last().name) {
        let s0 = s.drop_last();
        assert forall|i: int, j: int| 0 <= i < j < s0.len() implies !text_lt(
            #[trigger] s0[j].name,
            #[trigger] s0[i].name,
        ) by {
            assert(s[j] == s0[j] && s[i] == s0[i]);
        }
        lemma_insert_by_name_facts(s0, r);
        let t = insert_by_name(s0, r);
        let last = s.last();
        assert(s =~= s0.push(last));
        assert forall|i: int, j: int| 0 <= i < j < t.push(last).len() implies !text_lt(
            #[trigger] t.push(last)[j].name,
            #[trigger] t.push(last)[i].name,
        ) by {
            if j == t.len() {
                let x = t[i];
                assert(x == r || s0.contains(x));
                if x == r {
                    if text_lt(last.name, r.name) {
                        lemma_text_lt_transitive(last.name, r.name, last.name);
                        lemma_text_lt_irreflexive(last.name);
                    }
                } else {
                    let k = choose|k: int| 0 <= k < s0.len() && s0[k] == x;
                    assert(s[k] == x);
                    assert(!text_lt(s[s.len() - 1].name, s[k].name));
                }
            } else {
                assert(t.push(last)[j] == t[j]);
                assert(t.push(last)[i] == t[i]);
            }
        }
        assert forall|k: int| 0 <= k < t.push(last).len() implies #[trigger] t.push(last)[k] == r
            || s.contains(t.push(last)[k]) by {
            if k == t.len() {
                assert(s[s.len() - 1] == last);
            } else {
                assert(t.push(last)[k] == t[k]);
                if t[k] != r {
                    let m = choose|m: int| 0 <= m < s0.len() && s0[m] == t[k];
                    assert(s[m] == t[k]);
                }
            }
        }
    } else {
        assert forall|i: int, j: int| 0 <= i < j < s.push(r).len() implies !text_lt(
            #[trigger] s.push(r)[j].name,
            #[trigger] s.push(r)[i].name,
        ) by {
            if j == s.len() {
                let x = s[i];
                if text_lt(r.name, x.name) {
                    let l = s.last();
                    if i < s.len() - 1 {
                        assert(!text_lt(s[s.len() - 1].name, s[i].name));
                        if l.name != x.name {
                            lemma_text_lt_total(l.name, x.name);
                            lemma_text_lt_transitive(r.name, x.name, l.name);
                        }
                    }
                }
            } else {
                assert(s.push(r)[j] == s[j]);
                assert(s.push(r)[i] == s[i]);
            }
        }
        assert forall|k: int| 0 <= k < s.push(r).len() implies #[trigger] s.push(r)[k] == r
            || s.contains(s.push(r)[k]) by {
            if k < s.len() {
                assert(s.push(r)[k] == s[k]);
            }
        }
    }
}

/// Ordering runs by name keeps every run and puts them in name order.
pub proof fn lemma_sorted_by_name_orders_runs(rs: Seq<FixtureRunView>)
    ensures
        ordered_by_name(sorted_by_name(rs)),
        sorted_by_name(rs).to_multiset() == rs.to_multiset(),
        sorted_by_name(rs).len() == rs.len(),
    decreases rs.len(),
{
    if rs.len() > 0 {
        lemma_sorted_by_name_orders_runs(rs.drop_last());
        lemma_insert_by_name_facts(sorted_by_name(rs.drop_last()), rs.last());
        assert(rs =~= rs.drop_last().push(rs.last()));
    } else {
        assert(rs.to_multiset() =~= vstd::multiset::Multiset::<FixtureRunView>::empty());
        assert(sorted_by_name(rs).to_multiset() =~= vstd::multiset::Multiset::<FixtureRunView>::empty());
    }
}

proof fn lemma_insert_by_name_split(s: Seq<FixtureRunView>, r: FixtureRunView, p: int)
    requires
        0 < p <= s.len(),
        text_lt(r.name, s[p - 1].name),
    ensures
        insert_by_name(s.take(p), r) + s.skip(p) == insert_by_name(s.take(p - 1), r) + s.skip(
            p - 1,
        ),
{
    assert(s.take(p).drop_last() =~= s.take(p - 1));
    assert(s.take(p).last() == s[p - 1]);
    let t = insert_by_name(s.take(p - 1), r);
    assert(t.push(s[p - 1]) + s.skip(p) =~= t + s.skip(p - 1));
}

fn insert_run(sorted: &mut Vec<FixtureRun>, run: FixtureRun)
    ensures
        run_views(final(sorted)@) == insert_by_name(run_views(old(sorted)@), run@),
{
    let ghost v = run_views(sorted@);
    let mut p = sorted.len();
    assert(v.take(v.len() as int) =~= v);
    assert(v.skip(v.len() as int) =~= Seq::<FixtureRunView>::empty());
    while p > 0 && text_less(run.name.as_str(), sorted[p - 1].name.as_str())
        invariant
            p <= sorted@.len(),
            v == run_views(sorted@),
            insert_by_name(v, run@) == insert_by_name(v.take(p as int), run@) + v.skip(p as int),
        decreases p,
    {
        proof {
            assert(v[p - 1] == sorted@[p - 1]@);
            lemma_insert_by_name_split(v, run@, p as int);
        }
        p = p - 1;
    }
    proof {
        if p > 0 {
            assert(v[p - 1] == sorted@[p - 1]@);
            assert(v.take(p as int).last() == v[p - 1]);
        }
        assert(insert_by_name(v.take(p as int), run@) == v.take(p as int).push(run@));
    }
    let ghost run_view = run@;
    sorted.insert(p, run);
    assert(run_views(sorted@) =~= v.take(p as int).push(run_view) + v.skip(p as int));
}

/// The runs of the fixtures, in their order, or the message of the first
/// fixture that cannot run.
pub open spec fn fixture_runs(fs: Seq<Fixture>) -> Result<Seq<FixtureRunView>, Seq<char>>
    decreases fs.len(),
{
    if fs.len() == 0 {
        Ok(Seq::empty())
    } else {
        match fixture_runs(fs.drop_last()) {
            Err(e) => Err(e),
            Ok(rs) => match fixture_outcome(fs.last()) {
                Err(e) => Err(e),
                Ok(r) => Ok(rs.push(r)),
            },
        }
    }
}

proof fn lemma_runs_error_sticks(fs: Seq<Fixture>, n: int)
    requires
        0 <= n <= fs.len(),
        fixture_runs(fs.take(n)) is Err,
    ensures
        fixture_runs(fs) == fixture_runs(fs.take(n)),
    decreases fs.len() - n,
{
    if n < fs.len() {
        assert(fs.take(n + 1).drop_last() =~= fs.take(n));
        lemma_runs_error_sticks(fs, n + 1);
    } else {
        assert(fs.take(n) =~= fs);
    }
}

/// The number of runs that passed.
pub open spec fn passed_count(rs: Seq<FixtureRunView>) -> nat
    decreases rs.len(),
{
    if rs.len() == 0 {
        0
    } else {
        passed_count(rs.drop_last()) + if rs.last().passed {
            1nat
        } else {
            0nat
        }
    }
}

/// The name of the conformance suite.
pub open spec fn suite_text() -> Seq<char> {
    "minimal-state-tests"@
}

/// The name of the conformance suite.
pub fn suite_name() -> (r: &'static str)
    ensures
        r@ == suite_text(),
{
    "minimal-state-tests"
}

/// The counts of a conformance run. The pass rate is `passed / total` (zero
/// for no fixture).
#[derive(Debug, Clone, PartialEq, Eq)]
pub struct Scorecard {
    pub suite: String,
    pub total: usize,
    pub passed: usize,
    pub failed: usize,
}

/// The runs of a conformance run, ordered by fixture name.
#[derive(Debug, Clone, PartialEq, Eq)]
pub struct SnapshotReport {
    pub suite: String,
    pub fixtures: Vec<FixtureRun>,
}

fn count_passed(runs: &Vec<FixtureRun>) -> (r: usize)
    ensures
        r == passed_count(run_views(runs@)),
        r <= runs@.len(),
{
    let mut count: usize = 0;
    let mut i: usize = 0;
    assert(run_views(runs@).take(0) =~= Seq::<FixtureRunView>::empty());
    while i < runs.len()
        invariant
            i <= runs@.len(),
            count <= i,
            count == passed_count(run_views(runs@).take(i as int)),
        decreases runs@.len() - i,
    {
        assert(run_views(runs@).take(i + 1).drop_last() =~= run_views(runs@).take(i as int));
        assert(run_views(runs@).take(i + 1).last() == runs@[i as int]@);
        if runs[i].passed {
            count = count + 1;
        }
        i = i + 1;
    }
    assert(run_views(runs@).take(runs@.len() as int) =~= run_views(runs@));
    count
}

/// Runs every fixture and reports: the runs ordered by fixture name (runs of
/// equal names in their given order) and their counts. Fails with the
/// message of the first fixture that cannot run.
pub fn generate_reports(fixtures: &Vec<Fixture>) -> (r: Result<(Scorecard, SnapshotReport), String>)
    requires
        forall|i: int|
            0 <= i < fixtures@.len() ==> fixture_addresses_split_cleanly(#[trigger] fixtures@[i]),
    ensures
        match r {
            Ok((card, snapshot)) => {
                &&& fixture_runs(fixtures@) is Ok
                &&& run_views(snapshot.fixtures@) == sorted_by_name(fixture_runs(fixtures@)->Ok_0)
                &&& card.total == fixtures@.len()
                &&& card.passed == passed_count(fixture_runs(fixtures@)->Ok_0)
                &&& card.failed == card.total - card.passed
                &&& card.suite@ == suite_text()
                &&& snapshot.suite@ == suite_text()
            },
            Err(msg) => fixture_runs(fixtures@) == Err::<Seq<FixtureRunView>, Seq<char>>(msg@),
        },
{
    let mut sorted: Vec<FixtureRun> = Vec::new();
    let ghost mut runs: Seq<FixtureRunView> = Seq::empty();
    let mut i: usize = 0;
    assert(fixtures@.take(0) =~= Seq::<Fixture>::empty());
    while i < fixtures.len()
        invariant
            i <= fixtures@.len(),
            forall|j: int|
                0 <= j < fixtures@.len() ==> fixture_addresses_split_cleanly(
                    #[trigger] fixtures@[j],
                ),
            fixture_runs(fixtures@.take(i as int)) == Ok::<Seq<FixtureRunView>, Seq<char>>(runs),
            runs.len() == i,
            run_views(sorted@) == sorted_by_name(runs),
        decreases fixtures@.len() - i,
    {
        let ghost prefix = fixtures@.take(i + 1);
        assert(prefix.drop_last() =~= fixtures@.take(i as int));
        assert(prefix.last() == fixtures@[i as int]);
        let run = match execute_fixture(&fixtures[i]) {
            Ok(run) => run,
            Err(msg) => {
                proof {
                    lemma_runs_error_sticks(fixtures@, i + 1);
                }
                return Err(msg);
            },
        };
        proof {
            assert(runs.push(run@).drop_last() =~= runs);
            runs = runs.push(run@);
        }
        insert_run(&mut sorted, run);
        i = i + 1;
    }
    assert(fixtures@.take(fixtures@.len() as int) =~= fixtures@);
    proof {
        lemma_sorted_by_name_orders_runs(runs);
        lemma_passed_count_permutation(runs);
    }
    let total = sorted.len();
    let passed = count_passed(&sorted);
    let card = Scorecard {
        suite: String::from_str(suite_name()),
        total,
        passed,
        failed: total - passed,
    };
    let snapshot = SnapshotReport { suite: String::from_str(suite_name()), fixtures: sorted };
    Ok((card, snapshot))
}

proof fn lemma_passed_count_insert(s: Seq<FixtureRunView>, r: FixtureRunView)
    ensures
        passed_count(insert_by_name(s, r)) == passed_count(s) + if r.passed {
            1nat
        } else {
            0nat
        },
    decreases s.len(),
{
    if s.len() > 0 && text_lt(r.name, s.last().name) {
        lemma_passed_count_insert(s.drop_last(), r);
        assert(insert_by_name(s.drop_last(), r).push(s.last()).drop_last() =~= insert_by_name(
            s.drop_last(),
            r,
        ));
    } else {
        assert(s.push(r).drop_last() =~= s);
    }
}

proof fn lemma_passed_count_permutation(rs: Seq<FixtureRunView>)
    ensures
        passed_count(sorted_by_name(rs)) == passed_count(rs),
    decreases rs.len(),
{
    if rs.len() > 0 {
        lemma_passed_count_permutation(rs.drop_last());
        lemma_passed_count_insert(sorted_by_name(rs.drop_last()), rs.last());
    }
}


/// The message of a fixture name found in two files.
pub open spec fn duplicate_fixture_message(name: Seq<char>, first: Seq<char>, second: Seq<char>) -> Seq<
    char,
> {
    "duplicate fixture name '"@ + name + "' in "@ + first + " and "@ + second
}

/// Checks the newest of the loaded fixtures, whose names and file paths are
/// listed in load order: its name may not repeat an earlier one. The error
/// names the first earlier file with that name.
pub fn check_new_fixture_name(names: &Vec<String>, paths: &Vec<String>) -> (r: Result<(), String>)
    requires
        names@.len() == paths@.len(),
        names@.len() > 0,
    ensures
        ({
            let n = names@.len() - 1;
            match r {
                Ok(_) => forall|j: int| 0 <= j < n ==> #[trigger] names@[j]@ != names@[n]@,
                Err(msg) => exists|j: int|
                    0 <= j < n && #[trigger] names@[j]@ == names@[n]@ && (forall|k: int|
                        0 <= k < j ==> #[trigger] names@[k]@ != names@[n]@) && msg@
                        == duplicate_fixture_message(names@[n]@, paths@[j]@, paths@[n]@),
            }
        }),
{
    let n = names.len() - 1;
    let mut j: usize = 0;
    while j < n
        invariant
            j <= n,
            n == names@.len() - 1,
            names@.len() == paths@.len(),
            forall|k: int| 0 <= k < j ==> #[trigger] names@[k]@ != names@[n as int]@,
        decreases n - j,
    {
        if str_eq(names[j].as_str(), names[n].as_str()) {
            let mut msg = String::from_str("duplicate fixture name '");
            msg.append(names[n].as_str());
            msg.append("' in ");
            msg.append(paths[j].as_str());
            msg.append(" and ");
            msg.append(paths[n].as_str());
            return Err(msg);
        }
        j = j + 1;
    }
    Ok(())
}

/// The verdict of a conformance run with `failed` failing fixtures.
pub open spec fn failure_check(failed: usize) -> Result<(), Seq<char>> {
    if failed > 0 {
        Err(digits_of(failed as nat, 10) + " fixture(s) failed semantic checks; see snapshot output"@)
    } else {
        Ok(())
    }
}

/// Fails a conformance run in which a fixture failed.
pub fn failure_verdict(failed: usize) -> (r: Result<(), String>)
    ensures
        match r {
            Ok(_) => failure_check(failed) is Ok,
            Err(msg) => failure_check(failed) == Err::<(), Seq<char>>(msg@),
        },
{
    if failed > 0 {
        let mut msg = String::new();
        push_digits(&mut msg, failed as u128, 10);
        msg.append(" fixture(s) failed semantic checks; see snapshot output");
        Err(msg)
    } else {
        Ok(())
    }
}

} // verus!
