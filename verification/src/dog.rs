//! The dog: the targets it is handed, the tasting of each one, and the
//! all-or-nothing decision whether the batch may be eaten.
//!
//! The dog never touches the filesystem. The caller queries metadata for
//! each food and hands the outcomes in as `PathStatus` values; truncation is
//! likewise the caller's to perform, and only when `run` returns `Ok`.

use vstd::prelude::*;
use vstd::string::StringExecFns;
use crate::reject::{BadFood, TastingError};

verus! {

/// What one filesystem metadata query reported about a path.
#[derive(Clone, Copy, Debug, PartialEq, Eq, Structural)]
pub enum PathStatus {
    /// The query failed: access control refused it.
    AccessDenied,
    /// The query failed: the path does not exist.
    Missing,
    /// The query failed for some other reason.
    Undetermined,
    /// The path exists; whether it is a directory, and whether it is
    /// marked read-only.
    Present { is_dir: bool, readonly: bool },
}

/// The errors a run can end with.
#[derive(Debug)]
pub enum DogError {
    /// No specified targets
    EmptyFood,
    /// Files of targets are not writable
    Uneatable(BadFood),
}

pub type DogResult<T> = Result<T, DogError>;

/// The report line for one rejected path: `<path>: <reason text>`.
pub open spec fn spec_line(entry: (String, TastingError)) -> Seq<char> {
    entry.0@ + ": "@ + spec_reason_text(entry.1)
}

/// The text of a whole report: one line per rejected path, in entry order,
/// joined with newlines.
pub open spec fn spec_report_text(entries: Seq<(String, TastingError)>) -> Seq<char>
    decreases entries.len(),
{
    if entries.len() == 0 {
        Seq::empty()
    } else if entries.len() == 1 {
        spec_line(entries[0])
    } else {
        spec_report_text(entries.drop_last()) + "\n"@ + spec_line(entries.last())
    }
}

/// The reason text shown for one `TastingError`.
pub open spec fn spec_reason_text(reason: TastingError) -> Seq<char> {
    match reason {
        TastingError::Confused => "dog is confused"@,
        TastingError::NotAllowed => "permission denied."@,
        TastingError::NotExist => "does not exist."@,
        TastingError::NotFood => "is not legurar-file"@,
    }
}

impl DogError {
    /// What `message` renders: the fixed line for `EmptyFood`, the joined
    /// report lines for `Uneatable`.
    pub open spec fn spec_message(self) -> Seq<char> {
        match self {
            DogError::EmptyFood => "No targets specified"@,
            DogError::Uneatable(bad) => spec_report_text(bad.entries@),
        }
    }

    /// Render the error for the user.
    pub fn message(&self) -> (r: String)
        ensures
            r@ == self.spec_message(),
    {
        match self {
            DogError::EmptyFood => "No targets specified".to_owned(),
            DogError::Uneatable(bad) => {
                let mut out = String::new();
                let mut i: usize = 0;
                while i < bad.entries.len()
                    invariant
                        i <= bad.entries@.len(),
                        out@ == spec_report_text(bad.entries@.subrange(0, i as int)),
                    decreases bad.entries@.len() - i,
                {
                    let ghost pre = bad.entries@.subrange(0, i as int);
                    if i > 0 {
                        out.append("\n");
                    }
                    out.append(bad.entries[i].0.as_str());
                    out.append(": ");
                    let reason = bad.entries[i].1.message();
                    out.append(reason.as_str());
                    i += 1;
                    proof {
                        let cur = bad.entries@.subrange(0, i as int);
                        assert(cur.drop_last() =~= pre);
                        assert(cur.last() == bad.entries@[i - 1]);
                        if pre.len() == 0 {
                            assert(out@ =~= spec_line(cur[0]));
                        } else {
                            assert(out@ =~= spec_report_text(pre) + "\n"@ + spec_line(
                                cur.last(),
                            ));
                        }
                    }
                }
                proof {
                    assert(bad.entries@.subrange(0, bad.entries@.len() as int) =~= bad.entries@);
                }
                out
            },
        }
    }
}

impl TastingError {
    /// Render the reason for one rejected path.
    pub fn message(&self) -> (r: String)
        ensures
            r@ == spec_reason_text(*self),
    {
        match *self {
            TastingError::Confused => "dog is confused".to_owned(),
            TastingError::NotAllowed => "permission denied.".to_owned(),
            TastingError::NotExist => "does not exist.".to_owned(),
            TastingError::NotFood => "is not legurar-file".to_owned(),
        }
    }
}

/// The command-line arguments, with the program's own name stripped.
#[derive(Debug)]
pub struct Args {
    /// Arguments of specified
    args: Vec<String>,
}

impl View for Args {
    type V = Seq<String>;

    closed spec fn view(&self) -> Seq<String> {
        self.args@
    }
}

impl Args {
    /// Create an `Args`: the first element names the program itself and is
    /// dropped; the rest are the targets, in their given order.
    pub fn new(args: Vec<String>) -> (r: Self)
        ensures
            r@ == if args@.len() == 0 {
                Seq::<String>::empty()
            } else {
                args@.subrange(1, args@.len() as int)
            },
    {
        let n = args.len();
        let mut collect: Vec<String> = Vec::new();
        let mut i: usize = 1;
        while i < n
            invariant
                n == args@.len(),
                1 <= i,
                i <= n || n == 0,
                n == 0 ==> collect@ =~= Seq::<String>::empty(),
                n > 0 ==> collect@ =~= args@.subrange(1, i as int),
            decreases n - i,
        {
            collect.push(args[i].clone());
            i += 1;
            proof {
                assert(args@.subrange(1, i as int) =~= args@.subrange(1, i - 1).push(
                    args@[i - 1],
                ));
            }
        }
        Args { args: collect }
    }

    /// Get the targets, as a fresh vector in the same order.
    pub fn args(&self) -> (r: Vec<String>)
        ensures
            r@ == self@,
    {
        let mut r: Vec<String> = Vec::new();
        let mut i: usize = 0;
        while i < self.args.len()
            invariant
                i <= self.args@.len(),
                r@ =~= self.args@.subrange(0, i as int),
            decreases self.args@.len() - i,
        {
            r.push(self.args[i].clone());
            i += 1;
        }
        proof {
            assert(r@ =~= self.args@);
        }
        r
    }
}

/// What the classifier decides for one reported status. Query failures come
/// first, then directory-ness, then read-only-ness.
pub open spec fn spec_taste(status: PathStatus) -> Result<(), TastingError> {
    match status {
        PathStatus::AccessDenied => Err(TastingError::NotAllowed),
        PathStatus::Missing => Err(TastingError::NotExist),
        PathStatus::Undetermined => Err(TastingError::Confused),
        PathStatus::Present { is_dir, readonly } => if is_dir {
            Err(TastingError::NotFood)
        } else if readonly {
            Err(TastingError::NotAllowed)
        } else {
            Ok(())
        },
    }
}

/// The rejections collected after judging the first `n` foods, the i-th
/// food by the i-th status; a later entry for a path overwrites an earlier
/// one, while a later eligible duplicate removes nothing.
pub open spec fn rejections_upto(
    foods: Seq<String>,
    statuses: Seq<PathStatus>,
    n: int,
) -> Map<Seq<char>, TastingError>
    decreases n,
{
    if n <= 0 {
        Map::empty()
    } else {
        let prev = rejections_upto(foods, statuses, n - 1);
        match spec_taste(statuses[n - 1]) {
            Result::Ok(u) => prev,
            Result::Err(e) => prev.insert(foods[n - 1]@, e),
        }
    }
}

/// Everything one full classification pass rejects, keyed by path.
pub open spec fn spec_rejections(foods: Seq<String>, statuses: Seq<PathStatus>) -> Map<
    Seq<char>,
    TastingError,
> {
    rejections_upto(foods, statuses, foods.len() as int)
}

/// The dog. It holds the foods (the target paths) and decides; the caller
/// does the filesystem work.
#[derive(Debug)]
pub struct Dog {
    /// Targets of files
    foods: Vec<String>,
}

impl View for Dog {
    type V = Seq<String>;

    closed spec fn view(&self) -> Seq<String> {
        self.foods@
    }
}

impl Dog {
    /// Create a `Dog`. An empty target list is refused upfront with
    /// `EmptyFood`; nothing is classified and nothing is touched.
    pub fn foods(args: Args) -> (r: DogResult<Dog>)
        ensures
            if args@.len() == 0 {
                r matches Err(DogError::EmptyFood)
            } else {
                r matches Ok(d) && d@ == args@
            },
    {
        let foods = args.args();
        if foods.is_empty() {
            Err(DogError::EmptyFood)
        } else {
            Ok(Dog { foods })
        }
    }

    /// Taste every food and collect every rejection — never only the first —
    /// keyed by path, in sorted path order. `statuses` holds the outcome of
    /// the caller's metadata query for each food, in food order.
    pub fn wait(&self, statuses: &Vec<PathStatus>) -> (r: BadFood)
        requires
            statuses@.len() == self@.len(),
        ensures
            r.wf(),
            r.as_map() == spec_rejections(self@, statuses@),
    {
        let mut foods = BadFood::new();
        let mut i: usize = 0;
        while i < self.foods.len()
            invariant
                statuses@.len() == self.foods@.len(),
                i <= self.foods@.len(),
                foods.wf(),
                foods.as_map() == rejections_upto(self.foods@, statuses@, i as int),
            decreases self.foods@.len() - i,
        {
            match self.taste(&statuses[i]) {
                Ok(u) => {},
                Err(e) => {
                    foods.insert(self.foods[i].clone(), e);
                },
            }
            i += 1;
        }
        foods
    }

    /// Execute a run: taste every food; if anything was rejected, fail with
    /// the complete report, and nothing may be eaten; only a batch with a
    /// clean pass may be eaten, all of it.
    pub fn run(&self, statuses: &Vec<PathStatus>) -> (r: DogResult<()>)
        requires
            statuses@.len() == self@.len(),
        ensures
            r is Ok <==> spec_rejections(self@, statuses@) == Map::<
                Seq<char>,
                TastingError,
            >::empty(),
            match r {
                Result::Ok(u) => true,
                Result::Err(e) => e matches DogError::Uneatable(bad) && bad.wf() && bad.as_map()
                    == spec_rejections(self@, statuses@) && bad.entries@.len() > 0,
            },
    {
        let tasting = self.wait(statuses);
        if tasting.is_empty() {
            Ok(())
        } else {
            Err(DogError::Uneatable(tasting))
        }
    }

    /// Decide whether one food can be eaten, from what the filesystem
    /// reported about it. Purely diagnostic.
    pub fn taste(&self, status: &PathStatus) -> (r: Result<(), TastingError>)
        ensures
            r == spec_taste(*status),
    {
        match *status {
            PathStatus::AccessDenied => Err(TastingError::NotAllowed),
            PathStatus::Missing => Err(TastingError::NotExist),
            PathStatus::Undetermined => Err(TastingError::Confused),
            PathStatus::Present { is_dir, readonly } => {
                if is_dir {
                    Err(TastingError::NotFood)
                } else if readonly {
                    Err(TastingError::NotAllowed)
                } else {
                    Ok(())
                }
            },
        }
    }
}

proof fn lemma_upto_all_eligible(foods: Seq<String>, statuses: Seq<PathStatus>, n: int)
    requires
        statuses.len() == foods.len(),
        0 <= n <= foods.len(),
        forall|i: int| 0 <= i < statuses.len() ==> #[trigger] spec_taste(statuses[i]) is Ok,
    ensures
        rejections_upto(foods, statuses, n) == Map::<Seq<char>, TastingError>::empty(),
    decreases n,
{
    if n > 0 {
        lemma_upto_all_eligible(foods, statuses, n - 1);
    }
}

/// Law: a batch whose every food tastes eligible is rejected nowhere, so
/// `run` succeeds and the whole batch may be eaten.
pub proof fn lemma_all_eligible_accepted(foods: Seq<String>, statuses: Seq<PathStatus>)
    requires
        statuses.len() == foods.len(),
        forall|i: int| 0 <= i < statuses.len() ==> #[trigger] spec_taste(statuses[i]) is Ok,
    ensures
        spec_rejections(foods, statuses) == Map::<Seq<char>, TastingError>::empty(),
{
    lemma_upto_all_eligible(foods, statuses, foods.len() as int);
}

/// Law: eating is idempotent at the decision level. An already-eaten food
/// is still an existing, writable, regular file, so it reports
/// `Present { is_dir: false, readonly: false }` and tastes eligible: a batch
/// of such foods is accepted by this run and by every later run that
/// reports the same.
pub proof fn lemma_eaten_batch_accepted_again(foods: Seq<String>, statuses: Seq<PathStatus>)
    requires
        statuses.len() == foods.len(),
        forall|i: int|
            0 <= i < statuses.len() ==> #[trigger] statuses[i] == (PathStatus::Present {
                is_dir: false,
                readonly: false,
            }),
    ensures
        spec_rejections(foods, statuses) == Map::<Seq<char>, TastingError>::empty(),
{
    lemma_all_eligible_accepted(foods, statuses);
}

proof fn lemma_upto_contains(foods: Seq<String>, statuses: Seq<PathStatus>, i: int, n: int)
    requires
        statuses.len() == foods.len(),
        0 <= i < n <= foods.len(),
        spec_taste(statuses[i]) is Err,
    ensures
        rejections_upto(foods, statuses, n).contains_key(foods[i]@),
    decreases n,
{
    if n > i + 1 {
        lemma_upto_contains(foods, statuses, i, n - 1);
    }
}

/// Law: success owes a fully clean pass. A batch rejected nowhere had every
/// one of its foods tasted eligible: whatever `run` accepts, every path in
/// it was classified eligible first.
pub proof fn lemma_accepted_batch_all_eligible(foods: Seq<String>, statuses: Seq<PathStatus>)
    requires
        statuses.len() == foods.len(),
        spec_rejections(foods, statuses) == Map::<Seq<char>, TastingError>::empty(),
    ensures
        forall|i: int| 0 <= i < statuses.len() ==> #[trigger] spec_taste(statuses[i]) is Ok,
{
    assert forall|i: int|
        0 <= i < statuses.len() implies #[trigger] spec_taste(statuses[i]) is Ok by {
        if spec_taste(statuses[i]) is Err {
            lemma_rejected_food_blocks_run(foods, statuses, i);
        }
    }
}

/// Law: one bad food blocks the batch. A food whose status tastes bad is in
/// the report, so the report is non-empty, `run` fails, and nothing is
/// eaten — not even foods that were individually eligible.
pub proof fn lemma_rejected_food_blocks_run(
    foods: Seq<String>,
    statuses: Seq<PathStatus>,
    i: int,
)
    requires
        statuses.len() == foods.len(),
        0 <= i < foods.len(),
        spec_taste(statuses[i]) is Err,
    ensures
        spec_rejections(foods, statuses).contains_key(foods[i]@),
        spec_rejections(foods, statuses) != Map::<Seq<char>, TastingError>::empty(),
{
    lemma_upto_contains(foods, statuses, i, foods.len() as int);
    assert(!Map::<Seq<char>, TastingError>::empty().contains_key(foods[i]@));
}

/// Statuses are consistent when equal paths report equal statuses, as one
/// filesystem does within one classification pass.
pub open spec fn consistent_statuses(foods: Seq<String>, statuses: Seq<PathStatus>) -> bool {
    forall|j: int, k: int|
        0 <= j < foods.len() && 0 <= k < foods.len() && #[trigger] foods[j]@ == #[trigger] foods[k]@
            ==> statuses[j] == statuses[k]
}

proof fn lemma_upto_reason(foods: Seq<String>, statuses: Seq<PathStatus>, i: int, n: int)
    requires
        statuses.len() == foods.len(),
        0 <= i < n <= foods.len(),
        consistent_statuses(foods, statuses),
        spec_taste(statuses[i]) is Err,
    ensures
        rejections_upto(foods, statuses, n).contains_key(foods[i]@),
        rejections_upto(foods, statuses, n)[foods[i]@] == spec_taste(statuses[i])->Err_0,
    decreases n,
{
    if n > i + 1 {
        lemma_upto_reason(foods, statuses, i, n - 1);
        if foods[n - 1]@ == foods[i]@ {
            assert(statuses[n - 1] == statuses[i]);
        }
    }
}

/// Law: with consistent statuses, each rejected food is reported under its
/// own reason.
pub proof fn lemma_reason_reported(foods: Seq<String>, statuses: Seq<PathStatus>, i: int)
    requires
        statuses.len() == foods.len(),
        0 <= i < foods.len(),
        consistent_statuses(foods, statuses),
        spec_taste(statuses[i]) is Err,
    ensures
        spec_rejections(foods, statuses).contains_key(foods[i]@),
        spec_rejections(foods, statuses)[foods[i]@] == spec_taste(statuses[i])->Err_0,
        spec_rejections(foods, statuses) != Map::<Seq<char>, TastingError>::empty(),
{
    lemma_upto_reason(foods, statuses, i, foods.len() as int);
    assert(!Map::<Seq<char>, TastingError>::empty().contains_key(foods[i]@));
}

/// Law: a directory among the foods is reported as `NotFood`, the run
/// fails, and no food in the batch is eaten.
pub proof fn lemma_directory_blocks_run(foods: Seq<String>, statuses: Seq<PathStatus>, i: int)
    requires
        statuses.len() == foods.len(),
        0 <= i < foods.len(),
        consistent_statuses(foods, statuses),
        statuses[i] matches PathStatus::Present { is_dir: true, .. },
    ensures
        spec_rejections(foods, statuses).contains_key(foods[i]@),
        spec_rejections(foods, statuses)[foods[i]@] == TastingError::NotFood,
        spec_rejections(foods, statuses) != Map::<Seq<char>, TastingError>::empty(),
{
    lemma_reason_reported(foods, statuses, i);
}

/// Law: a nonexistent path among the foods is reported as `NotExist`, the
/// run fails, and no food in the batch is eaten.
pub proof fn lemma_missing_blocks_run(foods: Seq<String>, statuses: Seq<PathStatus>, i: int)
    requires
        statuses.len() == foods.len(),
        0 <= i < foods.len(),
        consistent_statuses(foods, statuses),
        statuses[i] is Missing,
    ensures
        spec_rejections(foods, statuses).contains_key(foods[i]@),
        spec_rejections(foods, statuses)[foods[i]@] == TastingError::NotExist,
        spec_rejections(foods, statuses) != Map::<Seq<char>, TastingError>::empty(),
{
    lemma_reason_reported(foods, statuses, i);
}

} // verus!
