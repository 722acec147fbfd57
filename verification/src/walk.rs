//! The walk over a directory's dependency files that a scan makes: which file
//! comes next, and the results gathered on the way, one per dependency file.

use vstd::prelude::*;
use vstd::pervasive::arbitrary;
use crate::error::IsSafeError;
use crate::paths::{is_dep_info, crate_name_of, is_dep_info_path, crate_name};
use crate::depinfo::{strings_view, dep_info_sources_of};

verus! {

/// The crate names of the dependency files in a listing, in order.
pub open spec fn dep_names(listing: Seq<Seq<char>>) -> Seq<Seq<char>>
    decreases listing.len(),
{
    if listing.len() == 0 {
        Seq::empty()
    } else if is_dep_info(listing.last()) {
        dep_names(listing.drop_last()).push(crate_name_of(listing.last()))
    } else {
        dep_names(listing.drop_last())
    }
}

/// The index of the first dependency file at or after `from`, or the listing's
/// length when there is none.
pub open spec fn next_dep_info(listing: Seq<Seq<char>>, from: nat) -> nat
    decreases listing.len() - from,
{
    if from >= listing.len() {
        listing.len()
    } else if is_dep_info(listing[from as int]) {
        from
    } else {
        next_dep_info(listing, from + 1)
    }
}

pub proof fn lemma_next_dep_info(listing: Seq<Seq<char>>, from: nat)
    requires
        from <= listing.len(),
    ensures
        from <= next_dep_info(listing, from) <= listing.len(),
        next_dep_info(listing, from) < listing.len() ==> is_dep_info(
            listing[next_dep_info(listing, from) as int],
        ),
        dep_names(listing.take(next_dep_info(listing, from) as int)) == dep_names(
            listing.take(from as int),
        ),
    decreases listing.len() - from,
{
    if from < listing.len() && !is_dep_info(listing[from as int]) {
        lemma_next_dep_info(listing, from + 1);
        assert(listing.take(from + 1 as int).drop_last() =~= listing.take(from as int));
    }
}

/// The crate being read: its sources, and the contents read so far.
pub struct CrateView {
    pub sources: Seq<Seq<char>>,
    pub read: Seq<Seq<char>>,
}

/// Where a walk stands: the directory listing, the index of the dependency file
/// at hand, the results so far, and whether it is over.
pub struct WalkView<R> {
    pub listing: Seq<Seq<char>>,
    pub at: nat,
    pub results: Seq<(Seq<char>, R)>,
    pub done: bool,
}

/// What a scan asks for next.
pub enum ActionView<R> {
    ReadDepInfo(nat),
    ReadSource(Seq<char>),
    Finished(Result<Seq<(Seq<char>, R)>, IsSafeError>),
}

/// The outcome of reading a file.
pub enum ScanEvent {
    /// The file's content.
    Contents(String),
    /// The file could not be read.
    Failed(std::io::Error),
}

/// The outcome of a read, as the scans' contracts see it.
pub enum EventView {
    Contents(Seq<char>),
    Failed(std::io::Error),
}

pub open spec fn event_view(e: ScanEvent) -> EventView {
    match e {
        ScanEvent::Contents(text) => EventView::Contents(text@),
        ScanEvent::Failed(err) => EventView::Failed(err),
    }
}

/// What the driver of a scan is to do next.
pub enum ScanAction<R> {
    /// Read the dependency file at this index of the listing.
    ReadDepInfo(usize),
    /// Read this source file.
    ReadSource(String),
    /// The scan is over, with this outcome.
    Finished(Result<Vec<(String, R)>, IsSafeError>),
}

pub open spec fn results_view<R>(r: Seq<(String, R)>) -> Seq<(Seq<char>, R)> {
    r.map_values(|p: (String, R)| (p.0@, p.1))
}

pub open spec fn result_names<R>(r: Seq<(Seq<char>, R)>) -> Seq<Seq<char>> {
    r.map_values(|p: (Seq<char>, R)| p.0)
}

pub open spec fn action_view<R>(a: ScanAction<R>) -> ActionView<R> {
    match a {
        ScanAction::ReadDepInfo(i) => ActionView::ReadDepInfo(i as nat),
        ScanAction::ReadSource(p) => ActionView::ReadSource(p@),
        ScanAction::Finished(Ok(r)) => ActionView::Finished(Ok(results_view(r@))),
        ScanAction::Finished(Err(e)) => ActionView::Finished(Err(e)),
    }
}

/// A walk begins at the first dependency file of the listing; with none, it is
/// over at once with no results.
pub open spec fn walk_start<R>(listing: Seq<Seq<char>>) -> (WalkView<R>, ActionView<R>) {
    let at = next_dep_info(listing, 0);
    if at < listing.len() {
        (
            WalkView { listing, at, results: Seq::empty(), done: false },
            ActionView::ReadDepInfo(at),
        )
    } else {
        (
            WalkView { listing, at, results: Seq::empty(), done: true },
            ActionView::Finished(Ok(Seq::empty())),
        )
    }
}

/// Once the result of the crate at hand is known: it joins the results, and the
/// walk goes on with the next dependency file, or is over with all the results.
pub open spec fn walk_next<R>(w: WalkView<R>, result: R) -> (WalkView<R>, ActionView<R>) {
    let results = w.results.push((crate_name_of(w.listing[w.at as int]), result));
    let at = next_dep_info(w.listing, w.at + 1);
    if at < w.listing.len() {
        (
            WalkView { listing: w.listing, at, results, done: false },
            ActionView::ReadDepInfo(at),
        )
    } else {
        (
            WalkView { listing: w.listing, at, results: Seq::empty(), done: true },
            ActionView::Finished(Ok(results)),
        )
    }
}

/// The walk over, with an error: it keeps only its listing and position.
pub open spec fn walk_over<R>(w: WalkView<R>) -> WalkView<R> {
    WalkView { listing: w.listing, at: w.at, results: Seq::empty(), done: true }
}

/// The invariant of a walk that is not over: it is at a dependency file, and
/// its results name the crates of the dependency files before it, in order.
pub open spec fn walk_wf<R>(w: WalkView<R>) -> bool {
    &&& w.at <= w.listing.len()
    &&& !w.done ==> {
        &&& w.at < w.listing.len()
        &&& is_dep_info(w.listing[w.at as int])
        &&& result_names(w.results) == dep_names(w.listing.take(w.at as int))
    }
}

/// A walk over a directory listing, one dependency file after the other.
pub struct Walk<R> {
    listing: Vec<String>,
    at: usize,
    results: Vec<(String, R)>,
    done: bool,
}

impl<R> View for Walk<R> {
    type V = WalkView<R>;

    closed spec fn view(&self) -> WalkView<R> {
        WalkView {
            listing: strings_view(self.listing@),
            at: self.at as nat,
            results: results_view(self.results@),
            done: self.done,
        }
    }
}

fn next_dep_info_index(listing: &Vec<String>, from: usize) -> (i: usize)
    requires
        from <= listing@.len(),
    ensures
        i == next_dep_info(strings_view(listing@), from as nat),
{
    let ghost l = strings_view(listing@);
    let mut i = from;
    while i < listing.len() && !is_dep_info_path(listing[i].as_str())
        invariant
            from <= i <= listing@.len(),
            l == strings_view(listing@),
            next_dep_info(l, from as nat) == next_dep_info(l, i as nat),
        decreases listing@.len() - i,
    {
        i = i + 1;
    }
    i
}

impl<R> Walk<R> {
    /// The walk's invariant.
    pub closed spec fn wf(&self) -> bool {
        &&& walk_wf(self@)
        &&& self.listing@.len() == self@.listing.len()
    }

    /// Starts a walk over a directory whose entries have these paths.
    pub fn start(listing: Vec<String>) -> (r: (Walk<R>, ScanAction<R>))
        ensures
            r.0.wf(),
            walk_wf(r.0@),
            (r.0@, action_view(r.1)) == walk_start::<R>(strings_view(listing@)),
    {
        let at = next_dep_info_index(&listing, 0);
        proof {
            lemma_next_dep_info(strings_view(listing@), 0);
            assert(strings_view(listing@).take(0) =~= Seq::<Seq<char>>::empty());
        }
        let done = at >= listing.len();
        let walk = Walk { listing, at, results: Vec::new(), done };
        proof {
            assert(results_view(walk.results@) =~= Seq::<(Seq<char>, R)>::empty());
            assert(result_names(Seq::<(Seq<char>, R)>::empty()) =~= Seq::<Seq<char>>::empty());
        }
        if done {
            (walk, ScanAction::Finished(Ok(Vec::new())))
        } else {
            (walk, ScanAction::ReadDepInfo(at))
        }
    }

    /// Ends the walk with an error.
    pub fn abort(&mut self)
        requires
            old(self).wf(),
        ensures
            final(self).wf(),
            walk_wf(final(self)@),
            final(self)@ == walk_over(old(self)@),
    {
        self.done = true;
        self.results = Vec::new();
        proof {
            assert(results_view(self.results@) =~= Seq::<(Seq<char>, R)>::empty());
        }
    }

    /// Records the result of the crate at hand and moves on; when the walk is
    /// over, its results name the crates of all the listing's dependency files.
    pub fn finish_crate(&mut self, result: R) -> (a: ScanAction<R>)
        requires
            old(self).wf(),
            !old(self)@.done,
        ensures
            final(self).wf(),
            walk_wf(final(self)@),
            (final(self)@, action_view(a)) == walk_next(old(self)@, result),
            a matches ScanAction::Finished(Ok(r)) ==> result_names(results_view(r@)) == dep_names(
                old(self)@.listing,
            ),
    {
        let ghost v = self@;
        let name = crate_name(self.listing[self.at].as_str());
        self.results.push((name, result));
        let ghost name_view = crate_name_of(v.listing[v.at as int]);
        proof {
            assert(results_view(self.results@) =~= v.results.push((name_view, result)));
            let l = v.listing;
            assert(l.take(v.at + 1 as int).drop_last() =~= l.take(v.at as int));
            assert(result_names(v.results.push((name_view, result))) =~= result_names(
                v.results,
            ).push(name_view));
            lemma_next_dep_info(l, v.at + 1);
        }
        let n = self.listing.len();
        assert(self.at < n);
        let at = next_dep_info_index(&self.listing, self.at + 1);
        self.at = at;
        if at < self.listing.len() {
            ScanAction::ReadDepInfo(at)
        } else {
            self.done = true;
            let mut out: Vec<(String, R)> = Vec::new();
            std::mem::swap(&mut out, &mut self.results);
            proof {
                assert(results_view(self.results@) =~= Seq::<(Seq<char>, R)>::empty());
                assert(v.listing.take(at as int) =~= v.listing);
            }
            ScanAction::Finished(Ok(out))
        }
    }
}

/// A model of the file system for a scan: the content of each readable file, by path.
pub type Files = Map<Seq<char>, Seq<char>>;

/// Reading a path in `fs`: its content, or a failure when the file cannot be read.
pub open spec fn read_in(fs: Files, path: Seq<char>) -> EventView {
    if fs.dom().contains(path) {
        EventView::Contents(fs[path])
    } else {
        EventView::Failed(arbitrary())
    }
}

/// The path that an action asks to read.
pub open spec fn requested_path<R>(listing: Seq<Seq<char>>, a: ActionView<R>) -> Seq<char> {
    match a {
        ActionView::ReadDepInfo(i) => listing[i as int],
        ActionView::ReadSource(p) => p,
        ActionView::Finished(_) => Seq::empty(),
    }
}

/// The contents in `fs` of these paths.
pub open spec fn contents_of(paths: Seq<Seq<char>>, fs: Files) -> Seq<Seq<char>> {
    paths.map_values(|p: Seq<char>| fs[p])
}

/// How a whole scan ends: with the results of all crates, or with the first
/// dependency file that lists no source, or at the first file that cannot be
/// read, or where a count of `unsafe` would overflow a `usize`.
pub enum Outcome<R> {
    Complete(Seq<(Seq<char>, R)>),
    MissingEntryPoint,
    Unreadable,
    Overflow,
}

/// How the reading of one crate's sources ends.
pub enum CrateOutcome<R> {
    Done(R),
    Unreadable,
    Overflow,
}

/// The outcome that a finishing action reports.
pub open spec fn finished_outcome<R>(a: ActionView<R>) -> Option<Outcome<R>> {
    match a {
        ActionView::Finished(Ok(r)) => Some(Outcome::Complete(r)),
        ActionView::Finished(Err(IsSafeError::MissingEntryPoint)) => Some(Outcome::MissingEntryPoint),
        ActionView::Finished(Err(IsSafeError::Io(_))) => Some(Outcome::Unreadable),
        _ => None,
    }
}

/// The outcome of a scan over the listing from index `at` on, with these results
/// so far, where `profile` says how the reading of a crate's sources ends: the
/// entries are taken in order; an entry that is a dependency file is read, and
/// its crate, named after the file, is profiled from the sources it lists.
pub open spec fn walk_outcome<R>(
    listing: Seq<Seq<char>>,
    fs: Files,
    at: nat,
    results: Seq<(Seq<char>, R)>,
    profile: spec_fn(Seq<Seq<char>>) -> CrateOutcome<R>,
) -> Outcome<R>
    decreases listing.len() - at,
{
    if at >= listing.len() {
        Outcome::Complete(results)
    } else if !is_dep_info(listing[at as int]) {
        walk_outcome(listing, fs, at + 1, results, profile)
    } else if !fs.dom().contains(listing[at as int]) {
        Outcome::Unreadable
    } else {
        let sources = dep_info_sources_of(fs[listing[at as int]]);
        if sources.len() == 0 {
            Outcome::MissingEntryPoint
        } else {
            match profile(sources) {
                CrateOutcome::Done(r) => walk_outcome(
                    listing,
                    fs,
                    at + 1,
                    results.push((crate_name_of(listing[at as int]), r)),
                    profile,
                ),
                CrateOutcome::Unreadable => Outcome::Unreadable,
                CrateOutcome::Overflow => Outcome::Overflow,
            }
        }
    }
}

/// Entries that are not dependency files change nothing.
pub proof fn lemma_walk_outcome_skip<R>(
    listing: Seq<Seq<char>>,
    fs: Files,
    at: nat,
    results: Seq<(Seq<char>, R)>,
    profile: spec_fn(Seq<Seq<char>>) -> CrateOutcome<R>,
)
    requires
        at <= listing.len(),
    ensures
        walk_outcome(listing, fs, at, results, profile) == walk_outcome(
            listing,
            fs,
            next_dep_info(listing, at),
            results,
            profile,
        ),
    decreases listing.len() - at,
{
    if at < listing.len() && !is_dep_info(listing[at as int]) {
        lemma_walk_outcome_skip(listing, fs, at + 1, results, profile);
    }
}

/// Whether every dependency file of the listing, and every source it lists, can
/// be read in `fs`.
pub open spec fn all_readable(listing: Seq<Seq<char>>, fs: Files) -> bool {
    forall|i: int|
        0 <= i < listing.len() && is_dep_info(#[trigger] listing[i]) ==> {
            &&& fs.dom().contains(listing[i])
            &&& forall|j: int|
                0 <= j < dep_info_sources_of(fs[listing[i]]).len() ==> fs.dom().contains(
                    #[trigger] dep_info_sources_of(fs[listing[i]])[j],
                )
        }
}

/// Some dependency file of the listing, at `at` or after, lists no Rust source.
pub open spec fn lists_no_source_from(listing: Seq<Seq<char>>, fs: Files, at: nat) -> bool {
    exists|i: int|
        at <= i < listing.len() && is_dep_info(#[trigger] listing[i])
            && dep_info_sources_of(fs[listing[i]]).len() == 0
}

/// One result per dependency file of the listing, at `at` or after, in order:
/// the crate's name and `result` of the sources that the file lists.
pub open spec fn results_from<R>(
    listing: Seq<Seq<char>>,
    fs: Files,
    at: nat,
    result: spec_fn(Seq<Seq<char>>) -> R,
) -> Seq<(Seq<char>, R)>
    decreases listing.len() - at,
{
    if at >= listing.len() {
        Seq::empty()
    } else if !is_dep_info(listing[at as int]) {
        results_from(listing, fs, at + 1, result)
    } else {
        seq![(crate_name_of(listing[at as int]), result(dep_info_sources_of(fs[listing[at as int]])))]
            + results_from(listing, fs, at + 1, result)
    }
}

/// Where every crate's reading ends with `result` of its sources, a walk
/// ends with `MissingEntryPoint` when some dependency file lists no source,
/// and otherwise with every crate's result, in order.
pub proof fn lemma_walk_outcome_done<R>(
    listing: Seq<Seq<char>>,
    fs: Files,
    at: nat,
    results: Seq<(Seq<char>, R)>,
    profile: spec_fn(Seq<Seq<char>>) -> CrateOutcome<R>,
    result: spec_fn(Seq<Seq<char>>) -> R,
)
    requires
        all_readable(listing, fs),
        forall|i: int|
            at <= i < listing.len() && is_dep_info(#[trigger] listing[i]) && dep_info_sources_of(
                fs[listing[i]],
            ).len() > 0 ==> profile(dep_info_sources_of(fs[listing[i]])) == CrateOutcome::Done(
                result(dep_info_sources_of(fs[listing[i]])),
            ),
    ensures
        walk_outcome(listing, fs, at, results, profile) == if lists_no_source_from(listing, fs, at) {
            Outcome::MissingEntryPoint
        } else {
            Outcome::Complete(results + results_from(listing, fs, at, result))
        },
    decreases listing.len() - at,
{
    if at >= listing.len() {
        assert(results + Seq::<(Seq<char>, R)>::empty() =~= results);
    } else {
        let d = listing[at as int];
        if !is_dep_info(d) {
            lemma_walk_outcome_done(listing, fs, at + 1, results, profile, result);
            assert(lists_no_source_from(listing, fs, at) == lists_no_source_from(listing, fs, at + 1)) by {
                if lists_no_source_from(listing, fs, at) {
                    let i = choose|i: int|
                        at <= i < listing.len() && is_dep_info(#[trigger] listing[i])
                            && dep_info_sources_of(fs[listing[i]]).len() == 0;
                    assert(i != at);
                }
            }
        } else {
            assert(fs.dom().contains(d));
            let sources = dep_info_sources_of(fs[d]);
            if sources.len() == 0 {
                assert(lists_no_source_from(listing, fs, at)) by {
                    assert(is_dep_info(listing[at as int]));
                }
            } else {
                let r = results.push((crate_name_of(d), result(sources)));
                lemma_walk_outcome_done(listing, fs, at + 1, r, profile, result);
                assert(lists_no_source_from(listing, fs, at) == lists_no_source_from(listing, fs, at + 1)) by {
                    if lists_no_source_from(listing, fs, at) {
                        let i = choose|i: int|
                            at <= i < listing.len() && is_dep_info(#[trigger] listing[i])
                                && dep_info_sources_of(fs[listing[i]]).len() == 0;
                        assert(i != at);
                    }
                }
                assert(r + results_from(listing, fs, at + 1, result) =~= results + results_from(
                    listing,
                    fs,
                    at,
                    result,
                ));
            }
        }
    }
}

/// The results with each crate's result taken through `h`.
pub open spec fn map_results<R, S>(results: Seq<(Seq<char>, R)>, h: spec_fn(R) -> S) -> Seq<(Seq<char>, S)> {
    results.map_values(|p: (Seq<char>, R)| (p.0, h(p.1)))
}

/// How a crate's reading ends, its result taken through `h`.
pub open spec fn map_crate_outcome<R, S>(o: CrateOutcome<R>, h: spec_fn(R) -> S) -> CrateOutcome<S> {
    match o {
        CrateOutcome::Done(r) => CrateOutcome::Done(h(r)),
        CrateOutcome::Unreadable => CrateOutcome::Unreadable,
        CrateOutcome::Overflow => CrateOutcome::Overflow,
    }
}

/// How a scan ends, each crate's result taken through `h`.
pub open spec fn map_outcome<R, S>(o: Outcome<R>, h: spec_fn(R) -> S) -> Outcome<S> {
    match o {
        Outcome::Complete(r) => Outcome::Complete(map_results(r, h)),
        Outcome::MissingEntryPoint => Outcome::MissingEntryPoint,
        Outcome::Unreadable => Outcome::Unreadable,
        Outcome::Overflow => Outcome::Overflow,
    }
}

/// Two walks over one listing in one file system end alike, up to `h`, where
/// the reading of every crate that both reach ends alike up to `h`.
pub proof fn lemma_walk_outcome_map<R, S>(
    listing: Seq<Seq<char>>,
    fs: Files,
    at: nat,
    results: Seq<(Seq<char>, R)>,
    profile: spec_fn(Seq<Seq<char>>) -> CrateOutcome<R>,
    other: spec_fn(Seq<Seq<char>>) -> CrateOutcome<S>,
    h: spec_fn(R) -> S,
)
    requires
        forall|i: int|
            at <= i < listing.len() && is_dep_info(#[trigger] listing[i]) && fs.dom().contains(
                listing[i],
            ) && dep_info_sources_of(fs[listing[i]]).len() > 0 ==> other(
                dep_info_sources_of(fs[listing[i]]),
            ) == map_crate_outcome(profile(dep_info_sources_of(fs[listing[i]])), h),
    ensures
        walk_outcome(listing, fs, at, map_results(results, h), other) == map_outcome(
            walk_outcome(listing, fs, at, results, profile),
            h,
        ),
    decreases listing.len() - at,
{
    if at < listing.len() {
        let d = listing[at as int];
        if !is_dep_info(d) {
            lemma_walk_outcome_map(listing, fs, at + 1, results, profile, other, h);
        } else if fs.dom().contains(d) {
            let sources = dep_info_sources_of(fs[d]);
            if sources.len() > 0 {
                assert(other(sources) == map_crate_outcome(profile(sources), h));
                if let CrateOutcome::Done(r) = profile(sources) {
                    let next = results.push((crate_name_of(d), r));
                    lemma_walk_outcome_map(listing, fs, at + 1, next, profile, other, h);
                    assert(map_results(next, h) =~= map_results(results, h).push(
                        (crate_name_of(d), h(r)),
                    ));
                }
            }
        }
    }
}


} // verus!
