//! The bounded upward search for the bundled entry file.
//!
//! Starting from a directory, the locator checks that directory and at
//! most six ancestors above it for a file named `index.html`, stopping
//! early at the root.  Which checks succeed depends on the disk, so the
//! search is split: [`search_candidates`] computes the exact list of
//! paths that will be probed, the disk is asked about each, and
//! [`locate_from_outcomes`] picks the first hit.  The selection is a pure
//! function of the answers, stated by [`locate_spec`] and proved for
//! every value of them.

use vstd::prelude::*;

verus! {

use vstd::string::StringExecFns;
use crate::error::ShellError;
use crate::paths::{
    parent_of, join_path, index_file, plain_name, normal_dir, descend, lemma_descend,
    parent_dir, join_index,
};

/// The chain of directories the search walks: `start`, then each parent
/// in turn, at most `budget` steps up, stopping where no parent exists.
pub open spec fn ancestors_within(start: Seq<char>, budget: nat) -> Seq<Seq<char>>
    decreases budget,
{
    match parent_of(start) {
        None => seq![start],
        Some(up) => if budget == 0 {
            seq![start]
        } else {
            seq![start] + ancestors_within(up, (budget - 1) as nat)
        },
    }
}

/// The paths probed for the entry file, in the order they are checked:
/// `index.html` inside the start directory and inside each walked
/// ancestor, six levels above it at most.
pub open spec fn candidates(start: Seq<char>) -> Seq<Seq<char>> {
    ancestors_within(start, 6).map_values(|a: Seq<char>| join_path(a, index_file()))
}

/// The position of the first `true` among the probe answers, if any.
pub open spec fn first_hit(outcomes: Seq<bool>) -> Option<int>
    decreases outcomes.len(),
{
    if outcomes.len() == 0 {
        None
    } else if outcomes[0] {
        Some(0)
    } else {
        match first_hit(outcomes.drop_first()) {
            None => None,
            Some(i) => Some(i + 1),
        }
    }
}

/// What the search returns, as a function of the start directory and of
/// the answer the disk gave for each candidate: the first candidate
/// whose probe succeeded, or [`ShellError::AssetNotFound`] when none did.
pub open spec fn locate_spec(start: Seq<char>, outcomes: Seq<bool>) -> Result<
    Seq<char>,
    ShellError,
> {
    match first_hit(outcomes) {
        Some(i) => if i < candidates(start).len() {
            Ok(candidates(start)[i])
        } else {
            Err(ShellError::AssetNotFound)
        },
        None => Err(ShellError::AssetNotFound),
    }
}

/// The returned path of a finished search, as the character sequences
/// that [`locate_spec`] speaks of.
pub open spec fn locate_result_view(r: Result<String, ShellError>) -> Result<
    Seq<char>,
    ShellError,
> {
    match r {
        Ok(p) => Ok(p@),
        Err(e) => Err(e),
    }
}

/// The shape of the walked chain: it starts at `start`, each entry is
/// the parent of the one before, and it ends only at the root or when
/// the budget is spent.
pub proof fn lemma_ancestors_within(start: Seq<char>, budget: nat)
    ensures
        1 <= ancestors_within(start, budget).len() <= budget + 1,
        ancestors_within(start, budget)[0] == start,
        forall|i: int| 0 <= i < ancestors_within(start, budget).len() - 1
            ==> parent_of(#[trigger] ancestors_within(start, budget)[i])
                == Some(ancestors_within(start, budget)[i + 1]),
        parent_of(ancestors_within(start, budget).last()) is Some
            ==> ancestors_within(start, budget).len() == budget + 1,
    decreases budget,
{
    let a = ancestors_within(start, budget);
    match parent_of(start) {
        None => {
            assert(a =~= seq![start]);
        },
        Some(up) => {
            if budget == 0 {
                assert(a =~= seq![start]);
            } else {
                lemma_ancestors_within(up, (budget - 1) as nat);
                let rest = ancestors_within(up, (budget - 1) as nat);
                assert(a =~= seq![start] + rest);
                assert forall|i: int| 0 <= i < a.len() - 1 implies parent_of(
                    #[trigger] a[i],
                ) == Some(a[i + 1]) by {
                    if i == 0 {
                        assert(a[0] == start);
                        assert(a[1] == rest[0]);
                    } else {
                        assert(a[i] == rest[i - 1]);
                        assert(parent_of(rest[i - 1]) == Some(rest[i]));
                    }
                }
                assert(a.last() == rest.last());
            }
        },
    }
}

/// What the first hit means: the probe there succeeded and every probe
/// before it failed; and where there is none, every probe failed.
pub proof fn lemma_first_hit(outcomes: Seq<bool>)
    ensures
        first_hit(outcomes) matches Some(i) ==> 0 <= i < outcomes.len() && outcomes[i]
            && (forall|k: int| 0 <= k < i ==> !outcomes[k]),
        first_hit(outcomes) is None ==> forall|k: int| 0 <= k < outcomes.len()
            ==> !outcomes[k],
    decreases outcomes.len(),
{
    if outcomes.len() == 0 {
    } else if outcomes[0] {
    } else {
        lemma_first_hit(outcomes.drop_first());
        assert forall|k: int| 0 <= k < outcomes.len() - 1 implies outcomes[k + 1]
            == outcomes.drop_first()[k] by {}
        match first_hit(outcomes.drop_first()) {
            None => {
                assert forall|k: int| 0 <= k < outcomes.len() implies !outcomes[k] by {
                    if k > 0 {
                        assert(!outcomes.drop_first()[k - 1]);
                    }
                }
            },
            Some(i) => {
                assert(outcomes[i + 1] == outcomes.drop_first()[i]);
                assert forall|k: int| 0 <= k < i + 1 implies !outcomes[k] by {
                    if k > 0 {
                        assert(!outcomes.drop_first()[k - 1]);
                    }
                }
            },
        }
    }
}

/// A succeeding probe with only failures before it is the first hit.
pub proof fn lemma_first_hit_at(outcomes: Seq<bool>, j: int)
    requires
        0 <= j < outcomes.len(),
        outcomes[j],
        forall|k: int| 0 <= k < j ==> !outcomes[k],
    ensures
        first_hit(outcomes) == Some(j),
{
    lemma_first_hit(outcomes);
    match first_hit(outcomes) {
        None => {
            assert(!outcomes[j]);
        },
        Some(i) => {
            if i < j {
                assert(!outcomes[i]);
            }
            if i > j {
                assert(!outcomes[j]);
            }
        },
    }
}

/// The walked chain under a known layout: a walk starting `names.len()`
/// components below `dir` passes, level by level, exactly back through
/// the directories it descended from, as far as the budget reaches.
pub proof fn lemma_descend_ancestors(dir: Seq<char>, names: Seq<Seq<char>>, budget: nat)
    requires
        normal_dir(dir),
        forall|i: int| 0 <= i < names.len() ==> plain_name(#[trigger] names[i]),
    ensures
        names.len() <= budget ==> ancestors_within(descend(dir, names), budget).len()
            > names.len(),
        budget < names.len() ==> ancestors_within(descend(dir, names), budget).len() == budget
            + 1,
        forall|i: int| 0 <= i && i <= names.len() && i <= budget && i < ancestors_within(
            descend(dir, names),
            budget,
        ).len() ==> #[trigger] ancestors_within(descend(dir, names), budget)[i] == descend(
            dir,
            names.take(names.len() - i),
        ),
    decreases names.len(),
{
    let start = descend(dir, names);
    let a = ancestors_within(start, budget);
    lemma_ancestors_within(start, budget);
    lemma_descend(dir, names);
    if names.len() == 0 || budget == 0 {
        assert(names.take(names.len() as int) =~= names);
        if budget == 0 && names.len() > 0 {
            assert(parent_of(start) is Some);
            assert(a =~= seq![start]);
        }
    } else {
        let prefix = names.drop_last();
        assert forall|i: int| 0 <= i < prefix.len() implies plain_name(#[trigger] prefix[i]) by {
            assert(prefix[i] == names[i]);
        }
        let up = descend(dir, prefix);
        assert(parent_of(start) == Some(up));
        let rest = ancestors_within(up, (budget - 1) as nat);
        assert(a =~= seq![start] + rest);
        lemma_descend_ancestors(dir, prefix, (budget - 1) as nat);
        assert forall|i: int|
            0 <= i && i <= names.len() && i <= budget && i < a.len() implies #[trigger] a[i]
            == descend(dir, names.take(names.len() - i)) by {
            if i == 0 {
                assert(names.take(names.len() as int) =~= names);
            } else {
                assert(i - 1 <= prefix.len() && i - 1 <= budget - 1 && i - 1 < rest.len());
                assert(rest[i - 1] == descend(dir, prefix.take(prefix.len() - (i - 1))));
                assert(prefix.take(prefix.len() - (i - 1)) =~= names.take(names.len() - i));
                assert(a[i] == rest[i - 1]);
            }
        }
    }
}

/// A candidate probed below `dir` is longer than the entry file's path
/// inside `dir` itself, so the two can never be the same path.
pub proof fn lemma_candidate_longer(dir: Seq<char>, names: Seq<Seq<char>>)
    requires
        normal_dir(dir),
        forall|i: int| 0 <= i < names.len() ==> plain_name(#[trigger] names[i]),
        names.len() >= 1,
    ensures
        join_path(descend(dir, names), index_file()).len() > join_path(dir, index_file()).len(),
{
    reveal_strlit("/");
    reveal_strlit("index.html");
    lemma_descend(dir, names);
    let a = descend(dir, names);
    assert(a.len() >= dir.len() + 1);
    assert(a.last() != '/');
    assert(join_path(a, index_file()).len() == a.len() + 11);
    assert(join_path(dir, index_file()).len() <= dir.len() + 11);
}

/// A directory that itself holds the entry file is resolved at once: for
/// any state of the disk on which the entry file's path inside `start`
/// exists, the search returns exactly that path.
pub proof fn lemma_locate_prefers_start_dir(
    start: Seq<char>,
    disk: Set<Seq<char>>,
    outcomes: Seq<bool>,
)
    requires
        outcomes.len() == candidates(start).len(),
        forall|i: int| 0 <= i < outcomes.len() ==> outcomes[i] == disk.contains(
            #[trigger] candidates(start)[i],
        ),
        disk.contains(join_path(start, index_file())),
    ensures
        locate_spec(start, outcomes) == Result::<Seq<char>, ShellError>::Ok(
            join_path(start, index_file()),
        ),
{
    lemma_ancestors_within(start, 6);
    assert(candidates(start)[0] == join_path(start, index_file()));
    assert(outcomes[0]);
    lemma_first_hit_at(outcomes, 0);
}

/// A search that probes only missing paths fails: for any state of the
/// disk that holds none of the candidate paths, the search reports
/// [`ShellError::AssetNotFound`].
pub proof fn lemma_locate_fails_when_nothing_found(
    start: Seq<char>,
    disk: Set<Seq<char>>,
    outcomes: Seq<bool>,
)
    requires
        outcomes.len() == candidates(start).len(),
        forall|i: int| 0 <= i < outcomes.len() ==> outcomes[i] == disk.contains(
            #[trigger] candidates(start)[i],
        ),
        forall|q: Seq<char>| candidates(start).contains(q) ==> !disk.contains(q),
    ensures
        locate_spec(start, outcomes) == Result::<Seq<char>, ShellError>::Err(
            ShellError::AssetNotFound,
        ),
{
    assert forall|i: int| 0 <= i < outcomes.len() implies !outcomes[i] by {
        assert(candidates(start).contains(candidates(start)[i]));
    }
    lemma_first_hit(outcomes);
    match first_hit(outcomes) {
        Some(j) => {
            assert(outcomes[j]);
        },
        None => {},
    }
}

/// The upward walk succeeds within its budget: when the start directory
/// lies one to six plain components below `dir`, and among the probed
/// paths exactly the entry file's path inside `dir` exists on the disk,
/// the search returns that path.
pub proof fn lemma_locate_walks_up(
    dir: Seq<char>,
    names: Seq<Seq<char>>,
    disk: Set<Seq<char>>,
    outcomes: Seq<bool>,
)
    requires
        normal_dir(dir),
        forall|i: int| 0 <= i < names.len() ==> plain_name(#[trigger] names[i]),
        1 <= names.len() <= 6,
        outcomes.len() == candidates(descend(dir, names)).len(),
        forall|i: int| 0 <= i < outcomes.len() ==> outcomes[i] == disk.contains(
            #[trigger] candidates(descend(dir, names))[i],
        ),
        forall|q: Seq<char>| candidates(descend(dir, names)).contains(q) ==> (disk.contains(q)
            <==> q == join_path(dir, index_file())),
    ensures
        locate_spec(descend(dir, names), outcomes) == Result::<Seq<char>, ShellError>::Ok(
            join_path(dir, index_file()),
        ),
{
    let start = descend(dir, names);
    let k = names.len() as int;
    let anc = ancestors_within(start, 6);
    lemma_ancestors_within(start, 6);
    lemma_descend_ancestors(dir, names, 6);
    assert(names.take(0) =~= Seq::<Seq<char>>::empty());
    assert(anc[k] == dir);
    assert(candidates(start)[k] == join_path(dir, index_file()));
    assert forall|i: int| 0 <= i < k implies !outcomes[i] by {
        let sub = names.take(k - i);
        assert forall|m: int| 0 <= m < sub.len() implies plain_name(#[trigger] sub[m]) by {
            assert(sub[m] == names[m]);
        }
        lemma_candidate_longer(dir, sub);
        assert(anc[i] == descend(dir, sub));
        assert(candidates(start)[i] == join_path(descend(dir, sub), index_file()));
        assert(candidates(start).contains(candidates(start)[i]));
    }
    assert(k < outcomes.len());
    assert(candidates(start).contains(candidates(start)[k]));
    assert(outcomes[k]);
    lemma_first_hit_at(outcomes, k);
}

/// Beyond the budget the walk gives up: when the start directory lies
/// seven or more plain components below `dir`, the entry file inside
/// `dir` is out of the walk's reach, and a disk holding exactly that
/// file among the probed paths makes the search fail with
/// [`ShellError::AssetNotFound`].
pub proof fn lemma_locate_beyond_budget_fails(
    dir: Seq<char>,
    names: Seq<Seq<char>>,
    disk: Set<Seq<char>>,
    outcomes: Seq<bool>,
)
    requires
        normal_dir(dir),
        forall|i: int| 0 <= i < names.len() ==> plain_name(#[trigger] names[i]),
        names.len() >= 7,
        outcomes.len() == candidates(descend(dir, names)).len(),
        forall|i: int| 0 <= i < outcomes.len() ==> outcomes[i] == disk.contains(
            #[trigger] candidates(descend(dir, names))[i],
        ),
        forall|q: Seq<char>| candidates(descend(dir, names)).contains(q) ==> (disk.contains(q)
            <==> q == join_path(dir, index_file())),
    ensures
        locate_spec(descend(dir, names), outcomes) == Result::<Seq<char>, ShellError>::Err(
            ShellError::AssetNotFound,
        ),
{
    let start = descend(dir, names);
    let anc = ancestors_within(start, 6);
    lemma_ancestors_within(start, 6);
    lemma_descend_ancestors(dir, names, 6);
    assert forall|i: int| 0 <= i < outcomes.len() implies !outcomes[i] by {
        assert(i < anc.len() <= 7);
        assert(i <= 6 && i <= names.len());
        let sub = names.take(names.len() - i);
        assert forall|m: int| 0 <= m < sub.len() implies plain_name(#[trigger] sub[m]) by {
            assert(sub[m] == names[m]);
        }
        lemma_candidate_longer(dir, sub);
        assert(anc[i] == descend(dir, sub));
        assert(candidates(start)[i] == join_path(descend(dir, sub), index_file()));
        assert(candidates(start).contains(candidates(start)[i]));
    }
    lemma_first_hit(outcomes);
    match first_hit(outcomes) {
        Some(j) => {
            assert(outcomes[j]);
        },
        None => {},
    }
}

/// Relies on `std::path::Path::exists`: reports whether some filesystem
/// entry is present at the given path at the moment of the call.  The
/// answer depends on the state of the disk, so nothing is promised of it.
#[verifier::external_body]
fn path_exists(p: &str) -> bool {
    std::path::Path::new(p).exists()
}

/// Probes the directory `dir` for the entry file.
///
/// Any returned path is exactly the entry file's path inside `dir`;
/// whether one is returned depends on the disk at the moment of the call.
pub fn find_index_near(dir: &str) -> (r: Option<String>)
    ensures
        r matches Some(p) ==> p@ == join_path(dir@, index_file()),
{
    let candidate = join_index(dir);
    if path_exists(candidate.as_str()) {
        Some(candidate)
    } else {
        None
    }
}

/// Computes the exact list of paths the search will probe, in order:
/// [`candidates`] of the start directory.
pub fn search_candidates(start_dir: &str) -> (r: Vec<String>)
    ensures
        r@.len() == candidates(start_dir@).len(),
        forall|i: int| 0 <= i < r@.len() ==> r@[i]@ == candidates(start_dir@)[i],
{
    let ghost anc = ancestors_within(start_dir@, 6);
    proof {
        lemma_ancestors_within(start_dir@, 6);
    }
    let mut cands: Vec<String> = Vec::new();
    let c0 = join_index(start_dir);
    cands.push(c0);
    let mut cursor = String::from_str(start_dir);
    let mut steps: usize = 0;
    while steps < 6
        invariant
            anc == ancestors_within(start_dir@, 6),
            steps < anc.len(),
            steps + 1 == cands@.len(),
            cands@.len() <= anc.len(),
            cursor@ == anc[steps as int],
            forall|i: int| 0 <= i < cands@.len() ==> cands@[i]@ == candidates(start_dir@)[i],
        decreases 6 - steps,
    {
        match parent_dir(cursor.as_str()) {
            None => {
                proof {
                    lemma_ancestors_within(start_dir@, 6);
                    if (steps as int) < anc.len() - 1 {
                        assert(parent_of(anc[steps as int]) == Some(anc[steps as int + 1]));
                    }
                    assert(anc.len() == steps + 1);
                }
                return cands;
            },
            Some(up) => {
                proof {
                    lemma_ancestors_within(start_dir@, 6);
                    if steps as int == anc.len() - 1 {
                        assert(parent_of(anc.last()) is Some);
                        assert(anc.len() == 7);
                    }
                    assert((steps as int) < anc.len() - 1);
                    assert(anc[steps as int + 1] == up@);
                }
                let c = join_index(up.as_str());
                cands.push(c);
                cursor = up;
                steps = steps + 1;
            },
        }
    }
    proof {
        lemma_ancestors_within(start_dir@, 6);
        assert(anc.len() == 7);
    }
    cands
}

/// Picks the search's result from the probed paths and the answer the
/// disk gave for each: the first path whose probe succeeded, or
/// [`ShellError::AssetNotFound`] when every probe failed.
pub fn locate_from_outcomes(cands: &Vec<String>, outcomes: &Vec<bool>) -> (r: Result<
    String,
    ShellError,
>)
    requires
        cands@.len() == outcomes@.len(),
    ensures
        first_hit(outcomes@) matches Some(i) ==> (r matches Ok(p) && p@ == cands@[i]@),
        first_hit(outcomes@) is None ==> (r matches Err(e) && e == ShellError::AssetNotFound),
{
    let n = cands.len();
    let mut i: usize = 0;
    while i < n
        invariant
            n == cands@.len(),
            cands@.len() == outcomes@.len(),
            i <= n,
            forall|k: int| 0 <= k < i ==> !outcomes@[k],
        decreases n - i,
    {
        if outcomes[i] {
            proof {
                lemma_first_hit_at(outcomes@, i as int);
            }
            return Ok(cands[i].clone());
        }
        i = i + 1;
    }
    proof {
        lemma_first_hit(outcomes@);
        match first_hit(outcomes@) {
            Some(j) => {
                assert(outcomes@[j]);
            },
            None => {},
        }
    }
    Err(ShellError::AssetNotFound)
}

/// Locates the entry file by searching in and above `start_dir`.
///
/// The directory itself is probed first, then its ancestors, six levels
/// above it at most, stopping early at the root.  Every success returns
/// one of the probed candidate paths; when nothing is found within the
/// budget, the search fails with [`ShellError::AssetNotFound`].
pub fn locate_entry_html(start_dir: &str) -> (r: Result<String, ShellError>)
    ensures
        r matches Ok(p) ==> exists|i: int|
            0 <= i < candidates(start_dir@).len() && p@ == candidates(start_dir@)[i],
        r matches Err(e) ==> e == ShellError::AssetNotFound,
        exists|os: Seq<bool>|
            os.len() == candidates(start_dir@).len() && locate_result_view(r) == locate_spec(
                start_dir@,
                os,
            ),
{
    let cands = search_candidates(start_dir);
    let mut outcomes: Vec<bool> = Vec::new();
    let mut i: usize = 0;
    while i < cands.len()
        invariant
            i <= cands@.len(),
            outcomes@.len() == i as int,
            cands@.len() == candidates(start_dir@).len(),
            forall|k: int| 0 <= k < cands@.len() ==> cands@[k]@ == candidates(start_dir@)[k],
        decreases cands@.len() - i,
    {
        let hit = path_exists(cands[i].as_str());
        outcomes.push(hit);
        i = i + 1;
    }
    let r = locate_from_outcomes(&cands, &outcomes);
    proof {
        lemma_first_hit(outcomes@);
        match first_hit(outcomes@) {
            Some(j) => {
                assert(r matches Ok(p) && p@ == cands@[j]@);
                assert(cands@[j]@ == candidates(start_dir@)[j]);
            },
            None => {},
        }
        assert(locate_result_view(r) == locate_spec(start_dir@, outcomes@));
        assert(outcomes@.len() == candidates(start_dir@).len());
    }
    r
}

} // verus!
