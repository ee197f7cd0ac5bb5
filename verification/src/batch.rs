//! A run over several photos: what is asked for, which photos it goes over, and
//! what comes of it.
use vstd::prelude::*;

use crate::convert::ConvertOptions;
use crate::db::PhotoListEntry;
use crate::decode::{Confidence, Intrinsics};
use crate::double::Double;
use crate::text::{decimal, integer, push_decimal, push_integer};

verus! {

/// The smallest factor that may be asked for.
pub const MIN_UPSAMPLE: u32 = 1;

/// The largest factor that may be asked for.
pub const MAX_UPSAMPLE: u32 = 16;

/// Why a run cannot start.
#[derive(Debug, Clone, Copy, PartialEq, Eq, Structural)]
pub enum UsageError {
    /// The camera matrix is not given by four values.
    MatrixValues,
    /// The factor is out of range.
    Upsample(u32),
    /// No photo is asked for.
    NoPhotos,
}

impl UsageError {
    /// The error in words.
    pub open spec fn spec_message(self) -> Seq<char> {
        match self {
            UsageError::MatrixValues => "--intrinsics expects exactly 4 values: fx,fy,cx,cy"@,
            UsageError::Upsample(factor) => "--upsample must be between 1 and 16 (got "@ + decimal(
                factor as nat,
            ) + ")"@,
            UsageError::NoPhotos => "must specify --ids 1,2,3 or --all"@,
        }
    }

    /// The error in words.
    pub fn message(&self) -> (r: String)
        ensures
            r@ == self.spec_message(),
    {
        match self {
            UsageError::MatrixValues =>
                "--intrinsics expects exactly 4 values: fx,fy,cx,cy".to_owned(),
            UsageError::Upsample(factor) => {
                let mut out = "--upsample must be between 1 and 16 (got ".to_owned();
                push_decimal(&mut out, *factor as u64);
                out.append(")");
                out
            },
            UsageError::NoPhotos => "must specify --ids 1,2,3 or --all".to_owned(),
        }
    }
}

/// What the command line says of the conversion.
#[derive(Debug, Clone)]
pub struct ConvertRequest {
    pub min_confidence: Confidence,
    pub rgb_root: String,
    /// The values given for a camera matrix.
    pub intrinsics: Option<Vec<Double>>,
    pub hfov_degrees: Option<Double>,
    pub upsample: u32,
}

impl ConvertRequest {
    /// What is wrong with the request. The camera matrix is looked at first.
    pub open spec fn fault(self) -> Option<UsageError> {
        if self.intrinsics matches Some(values) && values@.len() != 4 {
            Some(UsageError::MatrixValues)
        } else if !(MIN_UPSAMPLE <= self.upsample <= MAX_UPSAMPLE) {
            Some(UsageError::Upsample(self.upsample))
        } else {
            None
        }
    }

    /// The options that the request comes to.
    pub fn options(self) -> (r: Result<ConvertOptions, UsageError>)
        ensures
            match r {
                Ok(opts) => {
                    &&& self.fault() is None
                    &&& opts.min_confidence == self.min_confidence
                    &&& opts.rgb_root == self.rgb_root
                    &&& opts.fallback_intrinsics == match self.intrinsics {
                        Some(v) => Some(Intrinsics { fx: v@[0], fy: v@[1], cx: v@[2], cy: v@[3] }),
                        None => None,
                    }
                    &&& opts.fallback_hfov_degrees == self.hfov_degrees
                    &&& opts.upsample_factor == self.upsample
                },
                Err(e) => self.fault() == Some(e),
            },
    {
        let fallback_intrinsics = match &self.intrinsics {
            Some(v) => {
                if v.len() != 4 {
                    return Err(UsageError::MatrixValues);
                }
                Some(Intrinsics { fx: v[0], fy: v[1], cx: v[2], cy: v[3] })
            },
            None => None,
        };
        if self.upsample < MIN_UPSAMPLE || self.upsample > MAX_UPSAMPLE {
            return Err(UsageError::Upsample(self.upsample));
        }
        Ok(
            ConvertOptions {
                min_confidence: self.min_confidence,
                rgb_root: self.rgb_root,
                fallback_intrinsics,
                fallback_hfov_degrees: self.hfov_degrees,
                upsample_factor: self.upsample,
            },
        )
    }
}

/// Whether a run over all photos converts this one: it has a depth map, and there
/// is a camera matrix for it, its own or a fallback.
pub open spec fn convertible(e: PhotoListEntry, fallback: bool) -> bool {
    e.has_depth && (e.has_intrinsics || fallback)
}

/// The ids of the first `n` photos, of those that can be converted.
pub open spec fn convertible_ids(entries: Seq<PhotoListEntry>, fallback: bool, n: nat) -> Seq<i64>
    decreases n,
{
    if n == 0 {
        seq![]
    } else {
        let before = convertible_ids(entries, fallback, (n - 1) as nat);
        if convertible(entries[n - 1], fallback) {
            before.push(entries[n - 1].id)
        } else {
            before
        }
    }
}

/// Which photos of a database a run over all of it converts. With a fallback for
/// the camera matrix in the options, those of an older database are among them.
pub fn all_convertible(entries: &Vec<PhotoListEntry>, opts: &ConvertOptions) -> (r: Vec<i64>)
    ensures
        r@ == convertible_ids(entries@, opts.has_fallback(), entries@.len()),
{
    let fallback = opts.fallback_intrinsics.is_some() || opts.fallback_hfov_degrees.is_some();
    let mut ids: Vec<i64> = Vec::new();
    let mut i: usize = 0;
    while i < entries.len()
        invariant
            i <= entries@.len(),
            ids@ == convertible_ids(entries@, fallback, i as nat),
        decreases entries@.len() - i,
    {
        if entries[i].has_depth && (entries[i].has_intrinsics || fallback) {
            ids.push(entries[i].id);
        }
        i = i + 1;
    }
    ids
}

/// Which photos a run converts that names them one by one.
pub fn named(ids: Vec<i64>) -> (r: Result<Vec<i64>, UsageError>)
    ensures
        r == if ids@.len() > 0 {
            Ok(ids)
        } else {
            Err(UsageError::NoPhotos)
        },
{
    if ids.len() == 0 {
        return Err(UsageError::NoPhotos);
    }
    Ok(ids)
}

/// What is said of a photo that was converted.
pub fn success_line(id: i64, count: usize, path: &str) -> (r: String)
    ensures
        r@ == "photo "@ + integer(id as int, 0) + ": wrote "@ + decimal(count as nat)
            + " points to "@ + path@,
{
    let mut out = "photo ".to_owned();
    push_integer(&mut out, id, 0);
    out.append(": wrote ");
    push_decimal(&mut out, count as u64);
    out.append(" points to ");
    out.append(path);
    out
}

/// What is said of a photo that was not converted.
pub fn failure_line(id: i64, words: &str) -> (r: String)
    ensures
        r@ == "photo "@ + integer(id as int, 0) + ": "@ + words@,
{
    let mut out = "photo ".to_owned();
    push_integer(&mut out, id, 0);
    out.append(": ");
    out.append(words);
    out
}

/// How many photos of a run were converted, and how many were not.
#[derive(Debug, Clone, Copy, PartialEq, Eq, Structural)]
pub struct Tally {
    pub ok: usize,
    pub failed: usize,
}

/// How many of the outcomes are `wanted`.
pub open spec fn outcome_count(outcomes: Seq<bool>, wanted: bool) -> nat
    decreases outcomes.len(),
{
    if outcomes.len() == 0 {
        0
    } else {
        outcome_count(outcomes.drop_last(), wanted) + if outcomes.last() == wanted {
            1nat
        } else {
            0
        }
    }
}

impl Tally {
    /// Counts the outcomes of a run, of which each tells whether a photo was
    /// converted.
    pub fn of(outcomes: &Vec<bool>) -> (r: Tally)
        ensures
            r.ok == outcome_count(outcomes@, true),
            r.failed == outcome_count(outcomes@, false),
    {
        let mut ok: usize = 0;
        let mut failed: usize = 0;
        let mut i: usize = 0;
        while i < outcomes.len()
            invariant
                i <= outcomes@.len(),
                ok + failed == i,
                ok == outcome_count(outcomes@.take(i as int), true),
                failed == outcome_count(outcomes@.take(i as int), false),
            decreases outcomes@.len() - i,
        {
            proof {
                assert(outcomes@.take(i + 1).drop_last() =~= outcomes@.take(i as int));
            }
            if outcomes[i] {
                ok = ok + 1;
            } else {
                failed = failed + 1;
            }
            i = i + 1;
        }
        assert(outcomes@.take(i as int) =~= outcomes@);
        Tally { ok, failed }
    }

    /// The last line of a run.
    pub fn summary(&self) -> (r: String)
        ensures
            r@ == "done — "@ + decimal(self.ok as nat) + " ok, "@ + decimal(self.failed as nat)
                + " failed"@,
    {
        let mut out = "done — ".to_owned();
        push_decimal(&mut out, self.ok as u64);
        out.append(" ok, ");
        push_decimal(&mut out, self.failed as u64);
        out.append(" failed");
        out
    }

    /// Whether the run as a whole failed.
    pub open spec fn spec_all_failed(self) -> bool {
        self.ok == 0 && self.failed > 0
    }

    /// Whether the run as a whole failed.
    pub fn all_failed(&self) -> (r: bool)
        ensures
            r == self.spec_all_failed(),
    {
        self.ok == 0 && self.failed > 0
    }
}

proof fn lemma_outcome_counts(outcomes: Seq<bool>)
    ensures
        outcome_count(outcomes, true) + outcome_count(outcomes, false) == outcomes.len(),
        outcome_count(outcomes, true) == 0 <==> forall|i: int|
            0 <= i < outcomes.len() ==> !#[trigger] outcomes[i],
    decreases outcomes.len(),
{
    if outcomes.len() > 0 {
        let front = outcomes.drop_last();
        lemma_outcome_counts(front);
        if outcome_count(outcomes, true) == 0 {
            assert forall|i: int| 0 <= i < outcomes.len() implies !#[trigger] outcomes[i] by {
                if i < front.len() {
                    assert(!front[i]);
                }
            }
        } else if forall|i: int| 0 <= i < outcomes.len() ==> !#[trigger] outcomes[i] {
            assert(!outcomes[outcomes.len() - 1]);
            assert forall|i: int| 0 <= i < front.len() implies !#[trigger] front[i] by {
                assert(!outcomes[i]);
            }
        }
    }
}

/// Every photo of a run is counted, and the run fails as a whole exactly when
/// there was a photo to convert and none was converted.
pub proof fn law_one_success_is_enough(outcomes: Seq<bool>, tally: Tally)
    requires
        tally.ok == outcome_count(outcomes, true),
        tally.failed == outcome_count(outcomes, false),
    ensures
        tally.ok + tally.failed == outcomes.len(),
        tally.spec_all_failed() <==> outcomes.len() > 0 && forall|i: int|
            0 <= i < outcomes.len() ==> !#[trigger] outcomes[i],
{
    lemma_outcome_counts(outcomes);
}

/// Whether this is the id of a photo, among the first `n`, that can be converted.
pub open spec fn is_convertible_id(
    entries: Seq<PhotoListEntry>,
    fallback: bool,
    n: nat,
    id: i64,
) -> bool {
    exists|i: int|
        0 <= i < n && convertible(#[trigger] entries[i], fallback) && entries[i].id == id
}

/// A run over all of a database goes over the photos that have a depth map and a
/// camera matrix, or a fallback for it, and over no others.
pub proof fn law_all_means_convertible(
    entries: Seq<PhotoListEntry>,
    fallback: bool,
    n: nat,
    id: i64,
)
    requires
        n <= entries.len(),
    ensures
        convertible_ids(entries, fallback, n).contains(id) <==> is_convertible_id(
            entries,
            fallback,
            n,
            id,
        ),
    decreases n,
{
    if n > 0 {
        let before = convertible_ids(entries, fallback, (n - 1) as nat);
        let all = convertible_ids(entries, fallback, n);
        let last = entries[n - 1];
        law_all_means_convertible(entries, fallback, (n - 1) as nat, id);
        if before.contains(id) {
            let k = choose|k: int| 0 <= k < before.len() && before[k] == id;
            assert(all[k] == id);
            let i = choose|i: int|
                0 <= i < n - 1 && convertible(#[trigger] entries[i], fallback) && entries[i].id
                    == id;
            assert(convertible(entries[i], fallback));
        } else if convertible(last, fallback) && last.id == id {
            assert(all[before.len() as int] == id);
        } else {
            assert(all =~= before || all =~= before.push(last.id));
            if is_convertible_id(entries, fallback, n, id) {
                let i = choose|i: int|
                    0 <= i < n && convertible(#[trigger] entries[i], fallback) && entries[i].id
                        == id;
                assert(i < n - 1);
                assert(is_convertible_id(entries, fallback, (n - 1) as nat, id));
            }
        }
    }
}

/// With a fallback for the camera matrix, a run over all of a database goes over
/// every photo that has a depth map.
pub proof fn law_fallback_reaches_every_depth_map(entries: Seq<PhotoListEntry>, i: int)
    requires
        0 <= i < entries.len(),
        entries[i].has_depth,
    ensures
        convertible_ids(entries, true, entries.len()).contains(entries[i].id),
{
    law_all_means_convertible(entries, true, entries.len(), entries[i].id);
    assert(convertible(entries[i], true));
}

/// A run over all of a database goes over the photos that have a depth map, and a camera
/// matrix or a fallback for it, in their order. `places` tells which those are.
pub proof fn law_a_run_goes_over_what_it_can_convert(
    entries: Seq<PhotoListEntry>,
    fallback: bool,
    n: nat,
) -> (places: Seq<int>)
    requires
        n <= entries.len(),
    ensures
        convertible_ids(entries, fallback, n) == places.map_values(|i: int| entries[i].id),
        forall|k: int|
            #![trigger places[k]]
            0 <= k < places.len() ==> 0 <= places[k] < n && entries[places[k]].has_depth && (
            entries[places[k]].has_intrinsics || fallback),
        forall|j: int, k: int|
            #![trigger places[j], places[k]]
            0 <= j < k < places.len() ==> places[j] < places[k],
        forall|i: int|
            0 <= i < n && #[trigger] entries[i].has_depth && (entries[i].has_intrinsics || fallback)
                ==> places.contains(i),
    decreases n,
{
    if n == 0 {
        let places = Seq::<int>::empty();
        assert(places.map_values(|i: int| entries[i].id) =~= seq![]);
        places
    } else {
        let before = law_a_run_goes_over_what_it_can_convert(entries, fallback, (n - 1) as nat);
        let last = entries[n - 1];
        let places = if last.has_depth && (last.has_intrinsics || fallback) {
            before.push(n - 1)
        } else {
            before
        };
        assert(convertible_ids(entries, fallback, n) =~= places.map_values(
            |i: int| entries[i].id,
        ));
        assert forall|i: int|
            0 <= i < n && #[trigger] entries[i].has_depth && (entries[i].has_intrinsics
                || fallback) implies places.contains(i) by {
            if i < n - 1 {
                assert(before.contains(i));
                let k = choose|k: int| 0 <= k < before.len() && before[k] == i;
                assert(places[k] == i);
            } else {
                assert(places[before.len() as int] == i);
            }
        }
        places
    }
}

/// There is a fallback for the camera matrix where a matrix or a field of view is given.
pub proof fn law_either_option_is_a_fallback(opts: ConvertOptions)
    ensures
        !opts.has_fallback() <==> opts.fallback_intrinsics is None
            && opts.fallback_hfov_degrees is None,
{
}

/// Outcomes add up: those of two runs together are those of the one and those of the
/// other, and a single outcome counts as what it is.
pub proof fn law_outcomes_add_up(a: Seq<bool>, b: Seq<bool>, wanted: bool)
    ensures
        outcome_count(a + b, wanted) == outcome_count(a, wanted) + outcome_count(b, wanted),
        outcome_count(seq![wanted], wanted) == 1,
        outcome_count(seq![!wanted], wanted) == 0,
        outcome_count(seq![], wanted) == 0,
    decreases b.len(),
{
    reveal_with_fuel(outcome_count, 2);
    if b.len() == 0 {
        assert(a + b =~= a);
    } else {
        law_outcomes_add_up(a, b.drop_last(), wanted);
        assert((a + b).drop_last() =~= a + b.drop_last());
    }
}

/// A request is in order exactly where a matrix that is given has four values and the
/// factor is from 1 to 16. The matrix is looked at first.
pub proof fn law_which_requests_are_refused(request: ConvertRequest)
    ensures
        ({
            let four = request.intrinsics matches Some(values) ==> values@.len() == 4;
            let size = request.upsample;
            &&& request.fault() is None <==> four && 1 <= size <= 16
            &&& request.fault() == Some(UsageError::MatrixValues) <==> !four
            &&& request.fault() == Some(UsageError::Upsample(size)) <==> four && (size == 0 || size
                > 16)
        }),
{
}

/// What is said of a run that cannot start.
pub proof fn law_words_of_usage_errors(factor: u32)
    ensures
        UsageError::MatrixValues.spec_message()
            == "--intrinsics expects exactly 4 values: fx,fy,cx,cy"@,
        UsageError::Upsample(factor).spec_message() == "--upsample must be between 1 and 16 (got "@
            + decimal(factor as nat) + ")"@,
        UsageError::NoPhotos.spec_message() == "must specify --ids 1,2,3 or --all"@,
{
}

} // verus!
