//! The scan that reports each crate's `Unsafe` status: a crate whose entry
//! point, without its comments, holds `#![forbid(unsafe_code)]` is `Forbidden`;
//! otherwise the crate's sources, joined by newlines, are searched for `unsafe`.

use vstd::prelude::*;
use vstd::utf8::*;
use crate::Unsafe;
use crate::error::IsSafeError;
use crate::lexer::lex;
use crate::depinfo::{dep_info_sources_of, dep_info_sources, strings_view};
use vstd::pervasive::arbitrary;
use crate::paths::{is_dep_info, crate_name_of};
use crate::scan::{
    Safety, forbids_unsafe, forbids_unsafe_code, unsafe_ident_count, count_unsafe, unsafe_total,
    dependency_outcome, counts_fit, profile_in, law_crate_profile, all_sources_readable,
};
use crate::walk::{
    CrateView, WalkView, ActionView, ScanEvent, EventView, event_view, ScanAction, Files, Outcome,
    CrateOutcome, read_in, requested_path, finished_outcome, walk_outcome, lemma_walk_outcome_skip,
    next_dep_info, lemma_next_dep_info, contents_of, all_readable, lists_no_source_from,
    results_from, lemma_walk_outcome_done, Walk, walk_next, walk_over, walk_wf, action_view,
    result_names, results_view, dep_names, map_results, map_crate_outcome, map_outcome,
    lemma_walk_outcome_map,
};

verus! {

/// The contents joined into one text, with a newline between two of them.
pub open spec fn joined(contents: Seq<Seq<char>>) -> Seq<char>
    decreases contents.len(),
{
    if contents.len() == 0 {
        Seq::empty()
    } else if contents.len() == 1 {
        contents[0]
    } else {
        joined(contents.drop_last()) + seq!['\n'] + contents.last()
    }
}

/// Joining puts every content in, in order, with one newline between two:
/// nothing joins to nothing, one content joins to itself, and a content added
/// after one or more others comes after their joined text and a newline.
pub proof fn law_joined_push(contents: Seq<Seq<char>>, x: Seq<char>)
    ensures
        joined(Seq::empty()) == Seq::<char>::empty(),
        joined(seq![x]) == x,
        contents.len() > 0 ==> joined(contents.push(x)) == joined(contents) + seq!['\n'] + x,
{
    assert(contents.push(x).drop_last() =~= contents);
}

/// Joining two non-empty lists of contents is joining each and putting a
/// newline between the two texts.
pub proof fn law_joined_concat(a: Seq<Seq<char>>, b: Seq<Seq<char>>)
    requires
        a.len() > 0,
        b.len() > 0,
    ensures
        joined(a + b) == joined(a) + seq!['\n'] + joined(b),
    decreases b.len(),
{
    if b.len() == 1 {
        assert(a + b =~= a.push(b[0]));
        law_joined_push(a, b[0]);
        assert(b =~= seq![b[0]]);
    } else {
        law_joined_concat(a, b.drop_last());
        assert((a + b).drop_last() =~= a + b.drop_last());
        assert((a + b).last() == b.last());
        assert(joined(a) + seq!['\n'] + joined(b.drop_last()) + seq!['\n'] + b.last() =~= joined(a)
            + seq!['\n'] + (joined(b.drop_last()) + seq!['\n'] + b.last()));
    }
}

/// The joined text holds every content, in order: the `i`-th content starts
/// right after the joined text of those before it and a newline, and so its
/// chars stand in the joined text.
pub proof fn law_joined_holds_each(contents: Seq<Seq<char>>, i: int)
    requires
        0 <= i < contents.len(),
    ensures
        i == 0 ==> joined(contents).subrange(0, contents[0].len() as int) == contents[0],
        i > 0 ==> joined(contents).subrange(
            joined(contents.take(i)).len() + 1 as int,
            joined(contents.take(i)).len() + 1 + contents[i].len() as int,
        ) == contents[i],
        i > 0 ==> joined(contents)[joined(contents.take(i)).len() as int] == '\n',
{
    let pre = contents.take(i);
    let here = seq![contents[i]];
    let post = contents.skip(i + 1);
    if i == 0 {
        if contents.len() == 1 {
            assert(contents =~= seq![contents[0]]);
            law_joined_push(contents, contents[0]);
        } else {
            law_joined_concat(here, post);
            assert(here + post =~= contents);
            law_joined_push(pre, contents[0]);
        }
        assert(joined(contents).subrange(0, contents[0].len() as int) =~= contents[0]);
    } else {
        law_joined_push(pre, contents[i]);
        assert(pre.push(contents[i]) =~= contents.take(i + 1));
        if i + 1 == contents.len() {
            assert(contents.take(i + 1) =~= contents);
        } else {
            law_joined_concat(contents.take(i + 1), post);
            assert(contents.take(i + 1) + post =~= contents);
        }
        let j = joined(pre);
        assert(joined(contents).subrange(j.len() + 1 as int, j.len() + 1 + contents[i].len() as int) =~= contents[i]);
    }
}

/// The status of a crate whose entry point does not forbid `unsafe` and
/// whose sources hold these contents: `unsafe` is present when the joined text
/// holds the identifier.
pub open spec fn status_of(contents: Seq<Seq<char>>) -> Unsafe {
    if unsafe_ident_count(lex(encode_utf8(joined(contents)))) == 0 {
        Unsafe::Absent
    } else {
        Unsafe::Present
    }
}

/// Where a scan stands: its walk over the listing, and the crate being read.
/// Of a crate, the entry point is read first on its own; then all the sources
/// are read, the entry point among them.
pub struct UnsafeScanView {
    pub walk: WalkView<Unsafe>,
    pub reading: Option<CrateView>,
}

/// A scan begins at the first dependency file of the listing; with none, it is
/// over at once with no results.
pub open spec fn unsafe_scan_start(listing: Seq<Seq<char>>) -> (UnsafeScanView, ActionView<Unsafe>) {
    let (w, a) = crate::walk::walk_start::<Unsafe>(listing);
    (UnsafeScanView { walk: w, reading: None }, a)
}

/// The walk goes on once the crate at hand has this status.
pub open spec fn status_done(v: UnsafeScanView, status: Unsafe) -> (UnsafeScanView, ActionView<Unsafe>) {
    let (w, a) = walk_next(v.walk, status);
    (UnsafeScanView { walk: w, reading: None }, a)
}

/// One step of a scan on the outcome of the read it asked for. A failed read
/// ends the scan with that error. A dependency file that lists no Rust source
/// ends it with `MissingEntryPoint`. Else the entry point is read: when it
/// forbids `unsafe` (see `forbids_unsafe`), the crate is `Forbidden`; else every
/// source is read, the entry point first, and the crate's status follows from
/// their contents joined by newlines.
pub open spec fn unsafe_scan_step(v: UnsafeScanView, event: EventView) -> (UnsafeScanView, ActionView<Unsafe>) {
    match event {
        EventView::Failed(e) => (
            UnsafeScanView { walk: walk_over(v.walk), reading: None },
            ActionView::Finished(Err(IsSafeError::Io(e))),
        ),
        EventView::Contents(text) => match v.reading {
            None => {
                let sources = dep_info_sources_of(text);
                if sources.len() == 0 {
                    (
                        UnsafeScanView { walk: walk_over(v.walk), reading: None },
                        ActionView::Finished(Err(IsSafeError::MissingEntryPoint)),
                    )
                } else {
                    (
                        UnsafeScanView {
                            walk: v.walk,
                            reading: Some(CrateView { sources, read: Seq::empty() }),
                        },
                        ActionView::ReadSource(sources[0]),
                    )
                }
            },
            Some(k) => {
                let read = k.read.push(text);
                if forbids_unsafe(read[0]) {
                    status_done(v, Unsafe::Forbidden)
                } else if read.len() > k.sources.len() {
                    status_done(v, status_of(read.skip(1)))
                } else {
                    (
                        UnsafeScanView {
                            walk: v.walk,
                            reading: Some(CrateView { sources: k.sources, read }),
                        },
                        ActionView::ReadSource(k.sources[read.len() - 1]),
                    )
                }
            },
        },
    }
}

/// The invariant of a scan: that of its walk, and a crate being read still
/// needs a read, with an entry point, if read, that does not forbid `unsafe`.
pub open spec fn unsafe_scan_wf(v: UnsafeScanView) -> bool {
    &&& walk_wf(v.walk)
    &&& match v.reading {
        Some(k) => {
            &&& !v.walk.done
            &&& k.sources.len() > 0
            &&& k.read.len() <= k.sources.len()
            &&& k.read.len() > 0 ==> !forbids_unsafe(k.read[0])
        },
        None => true,
    }
}

struct StatusReading {
    sources: Vec<String>,
    read: Ghost<Seq<Seq<char>>>,
    entry_checked: bool,
    contents: Vec<String>,
}

/// A scan of a directory's dependency files that reports each crate's
/// `Unsafe` status, driven by reads that its caller makes.
pub struct UnsafeScan {
    walk: Walk<Unsafe>,
    reading: Option<StatusReading>,
}

impl View for UnsafeScan {
    type V = UnsafeScanView;

    closed spec fn view(&self) -> UnsafeScanView {
        UnsafeScanView {
            walk: self.walk@,
            reading: match self.reading {
                Some(k) => Some(CrateView { sources: strings_view(k.sources@), read: k.read@ }),
                None => None,
            },
        }
    }
}

/// The contents joined by newlines.
fn join_contents(contents: &Vec<String>) -> (text: String)
    ensures
        text@ == joined(strings_view(contents@)),
{
    let ghost cs = strings_view(contents@);
    let mut text = String::new();
    let mut i: usize = 0;
    while i < contents.len()
        invariant
            i <= contents@.len(),
            cs == strings_view(contents@),
            text@ == joined(cs.take(i as int)),
        decreases contents@.len() - i,
    {
        proof {
            assert(cs.take(i + 1).drop_last() =~= cs.take(i as int));
        }
        if i > 0 {
            text.push('\n');
        }
        text.append(contents[i].as_str());
        proof {
            if i == 0 {
                assert(text@ =~= cs.take(1)[0]);
            } else {
                assert(text@ =~= joined(cs.take(i as int)) + seq!['\n'] + cs.take(i + 1).last());
            }
        }
        i = i + 1;
    }
    proof {
        assert(cs.take(contents@.len() as int) =~= cs);
    }
    text
}

impl UnsafeScan {
    /// The scan's invariant.
    pub closed spec fn wf(&self) -> bool {
        &&& unsafe_scan_wf(self@)
        &&& self.walk.wf()
        &&& match self.reading {
            Some(k) => {
                &&& k.entry_checked == (k.read@.len() > 0)
                &&& k.read@.len() > 0 ==> strings_view(k.contents@) == k.read@.skip(1)
                &&& k.read@.len() == 0 ==> k.contents@.len() == 0
            },
            None => true,
        }
    }

    /// Starts a scan of a directory whose entries have these paths, in the
    /// order of the listing.
    pub fn new(listing: Vec<String>) -> (r: (UnsafeScan, ScanAction<Unsafe>))
        ensures
            r.0.wf(),
            (r.0@, action_view(r.1)) == unsafe_scan_start(strings_view(listing@)),
    {
        let (walk, action) = Walk::start(listing);
        (UnsafeScan { walk, reading: None }, action)
    }

    /// Takes the outcome of the read that the scan asked for, and says what to
    /// do next, as `unsafe_scan_step` describes. When the scan ends with its
    /// results, they name the crates of all the listing's dependency files, in order.
    pub fn step(&mut self, event: ScanEvent) -> (a: ScanAction<Unsafe>)
        requires
            old(self).wf(),
            !old(self)@.walk.done,
        ensures
            final(self).wf(),
            unsafe_scan_step(old(self)@, event_view(event)) == (final(self)@, action_view(a)),
            a matches ScanAction::Finished(Ok(res)) ==> result_names(results_view(res@))
                == dep_names(old(self)@.walk.listing),
    {
        match event {
            ScanEvent::Failed(e) => {
                self.walk.abort();
                self.reading = None;
                ScanAction::Finished(Err(IsSafeError::Io(e)))
            },
            ScanEvent::Contents(text) => {
                let reading = self.reading.take();
                match reading {
                    None => {
                        let sources = dep_info_sources(text.as_str());
                        if sources.len() == 0 {
                            self.walk.abort();
                            return ScanAction::Finished(Err(IsSafeError::MissingEntryPoint));
                        }
                        let first = sources[0].clone();
                        self.reading = Some(
                            StatusReading {
                                sources,
                                read: Ghost(Seq::empty()),
                                entry_checked: false,
                                contents: Vec::new(),
                            },
                        );
                        ScanAction::ReadSource(first)
                    },
                    Some(k) => {
                        let ghost read = k.read@.push(text@);
                        proof {
                            assert(read.drop_last() =~= k.read@);
                            if k.read@.len() > 0 {
                                assert(read[0] == k.read@[0]);
                            }
                        }
                        if !k.entry_checked {
                            if forbids_unsafe_code(text.as_str()) {
                                return self.walk.finish_crate(Unsafe::Forbidden);
                            }
                            let first = k.sources[0].clone();
                            self.reading = Some(
                                StatusReading {
                                    sources: k.sources,
                                    read: Ghost(read),
                                    entry_checked: true,
                                    contents: Vec::new(),
                                },
                            );
                            proof {
                                assert(strings_view(Seq::<String>::empty()) =~= read.skip(1));
                            }
                            return ScanAction::ReadSource(first);
                        }
                        let mut contents = k.contents;
                        let ghost before = strings_view(contents@);
                        contents.push(text);
                        proof {
                            assert(strings_view(contents@) =~= before.push(text@));
                            assert(read.skip(1) =~= k.read@.skip(1).push(text@));
                        }
                        if contents.len() >= k.sources.len() {
                            let all = join_contents(&contents);
                            let count = count_unsafe(all.as_str());
                            let status = if count == 0 {
                                Unsafe::Absent
                            } else {
                                Unsafe::Present
                            };
                            self.walk.finish_crate(status)
                        } else {
                            let p = k.sources[contents.len()].clone();
                            self.reading = Some(
                                StatusReading {
                                    sources: k.sources,
                                    read: Ghost(read),
                                    entry_checked: true,
                                    contents,
                                },
                            );
                            ScanAction::ReadSource(p)
                        }
                    },
                }
            },
        }
    }
}

/// The source that a crate's reading asks for after these reads: the entry
/// point first, then every source in turn, the entry point among them.
pub open spec fn pending_source(sources: Seq<Seq<char>>, read: Seq<Seq<char>>) -> Seq<char> {
    if read.len() == 0 {
        sources[0]
    } else {
        sources[read.len() - 1]
    }
}

/// How reading a crate's sources in `fs` ends, with these contents read so far:
/// an entry point that forbids `unsafe` settles the crate; once every source is
/// read again, the crate's status follows from their contents joined.
pub open spec fn status_reads(sources: Seq<Seq<char>>, fs: Files, read: Seq<Seq<char>>) -> CrateOutcome<Unsafe>
    decreases sources.len() + 1 - read.len(),
{
    if read.len() > sources.len() {
        CrateOutcome::Done(status_of(read.skip(1)))
    } else {
        let p = pending_source(sources, read);
        if !fs.dom().contains(p) {
            CrateOutcome::Unreadable
        } else {
            let read2 = read.push(fs[p]);
            if forbids_unsafe(read2[0]) {
                CrateOutcome::Done(Unsafe::Forbidden)
            } else {
                status_reads(sources, fs, read2)
            }
        }
    }
}

/// How finding the status of a crate with these sources ends, in `fs`.
pub open spec fn status_in(fs: Files) -> spec_fn(Seq<Seq<char>>) -> CrateOutcome<Unsafe> {
    |sources: Seq<Seq<char>>| status_reads(sources, fs, Seq::empty())
}

/// How a scan of a directory with this listing ends, in `fs`.
pub open spec fn unsafe_outcome(listing: Seq<Seq<char>>, fs: Files) -> Outcome<Unsafe> {
    walk_outcome(listing, fs, 0, Seq::empty(), status_in(fs))
}

/// A scan driven by reads in `fs`, for at most `fuel` steps: how it ends, if it
/// ends within them.
pub open spec fn unsafe_scan_run(v: UnsafeScanView, a: ActionView<Unsafe>, fs: Files, fuel: nat) -> Option<Outcome<Unsafe>>
    decreases fuel,
{
    match finished_outcome(a) {
        Some(o) => Some(o),
        None => if fuel == 0 {
            None
        } else {
            let (v2, a2) = unsafe_scan_step(v, read_in(fs, requested_path(v.walk.listing, a)));
            unsafe_scan_run(v2, a2, fs, (fuel - 1) as nat)
        },
    }
}

proof fn lemma_unsafe_run_unfold(v: UnsafeScanView, a: ActionView<Unsafe>, fs: Files, fuel: nat)
    requires
        finished_outcome(a) is None,
    ensures
        unsafe_scan_run(v, a, fs, fuel + 1) == unsafe_scan_run(
            unsafe_scan_step(v, read_in(fs, requested_path(v.walk.listing, a))).0,
            unsafe_scan_step(v, read_in(fs, requested_path(v.walk.listing, a))).1,
            fs,
            fuel,
        ),
{
}

proof fn lemma_status_run(v: UnsafeScanView, fs: Files, f: nat) -> (c: nat)
    requires
        v.reading is Some,
        v.walk.at < v.walk.listing.len(),
        v.reading->0.sources.len() > 0,
        v.reading->0.read.len() <= v.reading->0.sources.len(),
        v.reading->0.read.len() > 0 ==> !forbids_unsafe(v.reading->0.read[0]),
    ensures
        unsafe_scan_run(
            v,
            ActionView::ReadSource(pending_source(v.reading->0.sources, v.reading->0.read)),
            fs,
            c + f,
        ) == match status_reads(v.reading->0.sources, fs, v.reading->0.read) {
            CrateOutcome::Done(s) => unsafe_scan_run(status_done(v, s).0, status_done(v, s).1, fs, f),
            CrateOutcome::Unreadable => Some(Outcome::Unreadable),
            CrateOutcome::Overflow => Some(Outcome::Overflow),
        },
    decreases v.reading->0.sources.len() + 1 - v.reading->0.read.len(),
{
    let k = v.reading->0;
    let p = pending_source(k.sources, k.read);
    let a = ActionView::<Unsafe>::ReadSource(p);
    if !fs.dom().contains(p) {
        lemma_unsafe_run_unfold(v, a, fs, f);
        let e: std::io::Error = arbitrary();
        assert(read_in(fs, p) == EventView::Failed(e));
        let fin = ActionView::<Unsafe>::Finished(Err(IsSafeError::Io(e)));
        let over_v = UnsafeScanView { walk: walk_over(v.walk), reading: None };
        assert(unsafe_scan_step(v, read_in(fs, p)) == (over_v, fin));
        assert(unsafe_scan_run(over_v, fin, fs, f) == Some(Outcome::<Unsafe>::Unreadable));
        1
    } else {
        assert(read_in(fs, p) == EventView::Contents(fs[p]));
        let read2 = k.read.push(fs[p]);
        if k.read.len() > 0 {
            assert(read2[0] == k.read[0]);
        }
        if forbids_unsafe(read2[0]) {
            lemma_unsafe_run_unfold(v, a, fs, f);
            assert(unsafe_scan_step(v, read_in(fs, p)) == status_done(v, Unsafe::Forbidden));
            assert(status_reads(k.sources, fs, k.read) == CrateOutcome::Done(Unsafe::Forbidden));
            1
        } else if read2.len() > k.sources.len() {
            lemma_unsafe_run_unfold(v, a, fs, f);
            assert(unsafe_scan_step(v, read_in(fs, p)) == status_done(v, status_of(read2.skip(1))));
            assert(status_reads(k.sources, fs, k.read) == status_reads(k.sources, fs, read2));
            1
        } else {
            let v2 = UnsafeScanView {
                walk: v.walk,
                reading: Some(CrateView { sources: k.sources, read: read2 }),
            };
            let c = lemma_status_run(v2, fs, f);
            lemma_unsafe_run_unfold(v, a, fs, c + f);
            assert(status_reads(k.sources, fs, k.read) == status_reads(k.sources, fs, read2));
            assert(unsafe_scan_step(v, read_in(fs, p)) == (
                v2,
                ActionView::<Unsafe>::ReadSource(pending_source(k.sources, read2)),
            ));
            assert forall|s: Unsafe| status_done(v2, s) == status_done(v, s) by {}
            c + 1
        }
    }
}

proof fn lemma_unsafe_walk_run(v: UnsafeScanView, fs: Files) -> (fuel: nat)
    requires
        v.reading is None,
        !v.walk.done,
        v.walk.at < v.walk.listing.len(),
        is_dep_info(v.walk.listing[v.walk.at as int]),
    ensures
        unsafe_scan_run(v, ActionView::ReadDepInfo(v.walk.at), fs, fuel) == Some(
            walk_outcome(v.walk.listing, fs, v.walk.at, v.walk.results, status_in(fs)),
        ),
    decreases v.walk.listing.len() - v.walk.at,
{
    let l = v.walk.listing;
    let at = v.walk.at;
    let d = l[at as int];
    let a = ActionView::<Unsafe>::ReadDepInfo(at);
    let over_v = UnsafeScanView { walk: walk_over(v.walk), reading: None };
    if !fs.dom().contains(d) {
        let e: std::io::Error = arbitrary();
        assert(read_in(fs, d) == EventView::Failed(e));
        let fin = ActionView::<Unsafe>::Finished(Err(IsSafeError::Io(e)));
        assert(unsafe_scan_step(v, read_in(fs, d)) == (over_v, fin));
        lemma_unsafe_run_unfold(v, a, fs, 0);
        assert(unsafe_scan_run(over_v, fin, fs, 0) == Some(Outcome::<Unsafe>::Unreadable));
        return 1;
    }
    assert(read_in(fs, d) == EventView::Contents(fs[d]));
    let sources = dep_info_sources_of(fs[d]);
    if sources.len() == 0 {
        let fin = ActionView::<Unsafe>::Finished(Err(IsSafeError::MissingEntryPoint));
        assert(unsafe_scan_step(v, read_in(fs, d)) == (over_v, fin));
        lemma_unsafe_run_unfold(v, a, fs, 0);
        assert(unsafe_scan_run(over_v, fin, fs, 0) == Some(Outcome::<Unsafe>::MissingEntryPoint));
        return 1;
    }
    let v2 = UnsafeScanView {
        walk: v.walk,
        reading: Some(CrateView { sources, read: Seq::empty() }),
    };
    let a2 = ActionView::<Unsafe>::ReadSource(sources[0]);
    assert(unsafe_scan_step(v, read_in(fs, d)) == (v2, a2));
    let o = status_reads(sources, fs, Seq::empty());
    assert(status_in(fs)(sources) == o);
    match o {
        CrateOutcome::Done(s) => {
            let (v3, a3) = status_done(v2, s);
            let results = v.walk.results.push((crate_name_of(d), s));
            lemma_next_dep_info(l, at + 1);
            lemma_walk_outcome_skip(l, fs, at + 1, results, status_in(fs));
            let next = next_dep_info(l, at + 1);
            if next < l.len() {
                assert(v3 == UnsafeScanView {
                    walk: WalkView { listing: l, at: next, results, done: false },
                    reading: None,
                });
                assert(a3 == ActionView::<Unsafe>::ReadDepInfo(next));
                let f = lemma_unsafe_walk_run(v3, fs);
                let c = lemma_status_run(v2, fs, f);
                lemma_unsafe_run_unfold(v, a, fs, c + f);
                1 + c + f
            } else {
                assert(a3 == ActionView::<Unsafe>::Finished(Ok(results)));
                let c = lemma_status_run(v2, fs, 0);
                lemma_unsafe_run_unfold(v, a, fs, c);
                assert(walk_outcome(l, fs, next, results, status_in(fs)) == Outcome::Complete(results));
                1 + c
            }
        },
        _ => {
            let c = lemma_status_run(v2, fs, 0);
            lemma_unsafe_run_unfold(v, a, fs, c);
            1 + c
        },
    }
}

/// A scan of a directory, driven by reads in a file system, ends as
/// `unsafe_outcome` says: with the status of every dependency file's crate, in
/// listing order, or with the first error on the way.
pub proof fn law_unsafe_scan_reaches_outcome(listing: Seq<Seq<char>>, fs: Files)
    ensures
        exists|fuel: nat|
            unsafe_scan_run(unsafe_scan_start(listing).0, unsafe_scan_start(listing).1, fs, fuel)
                == Some(unsafe_outcome(listing, fs)),
{
    let (v, a) = unsafe_scan_start(listing);
    lemma_next_dep_info(listing, 0);
    lemma_walk_outcome_skip(listing, fs, 0, Seq::empty(), status_in(fs));
    let at = next_dep_info(listing, 0);
    if at < listing.len() {
        let fuel = lemma_unsafe_walk_run(v, fs);
        assert(unsafe_scan_run(v, a, fs, fuel) == Some(unsafe_outcome(listing, fs)));
    } else {
        assert(unsafe_scan_run(v, a, fs, 0) == Some(unsafe_outcome(listing, fs)));
    }
}

/// How finding the status of a crate with these sources ends in `fs`, stated
/// outright: an entry point that cannot be read makes the crate unreadable; one
/// that forbids `unsafe` settles it as `Forbidden`, whatever the other sources
/// hold and whether or not they can be read; else the crate is unreadable when
/// some source cannot be read, and otherwise has the status of all their contents.
pub open spec fn status_expected(sources: Seq<Seq<char>>, fs: Files) -> CrateOutcome<Unsafe> {
    if !fs.dom().contains(sources[0]) {
        CrateOutcome::Unreadable
    } else if forbids_unsafe(fs[sources[0]]) {
        CrateOutcome::Done(Unsafe::Forbidden)
    } else if all_sources_readable(sources, fs) {
        CrateOutcome::Done(status_of(contents_of(sources, fs)))
    } else {
        CrateOutcome::Unreadable
    }
}

proof fn lemma_status_reads_general(sources: Seq<Seq<char>>, fs: Files, read: Seq<Seq<char>>)
    requires
        sources.len() > 0,
        read.len() <= sources.len() + 1,
        read.len() > 0 ==> {
            &&& fs.dom().contains(sources[0])
            &&& read[0] == fs[sources[0]]
            &&& !forbids_unsafe(read[0])
            &&& read.skip(1) == contents_of(sources, fs).take(read.len() - 1)
            &&& forall|j: int| 0 <= j < read.len() - 1 ==> fs.dom().contains(#[trigger] sources[j])
        },
    ensures
        status_reads(sources, fs, read) == status_expected(sources, fs),
    decreases sources.len() + 1 - read.len(),
{
    let cs = contents_of(sources, fs);
    if read.len() > sources.len() {
        assert(cs.take(sources.len() as int) =~= cs);
        assert(all_sources_readable(sources, fs));
    } else {
        let p = pending_source(sources, read);
        if !fs.dom().contains(p) {
            if read.len() > 0 {
                assert(!all_sources_readable(sources, fs));
            }
        } else {
            let read2 = read.push(fs[p]);
            assert(read2[0] == fs[sources[0]]);
            if !forbids_unsafe(read2[0]) {
                assert(read2.skip(1) =~= cs.take(read.len() as int));
                lemma_status_reads_general(sources, fs, read2);
            }
        }
    }
}

/// How finding the status of a crate ends, as `status_expected` states it.
pub proof fn law_crate_status(sources: Seq<Seq<char>>, fs: Files)
    requires
        sources.len() > 0,
    ensures
        status_in(fs)(sources) == status_expected(sources, fs),
{
    lemma_status_reads_general(sources, fs, Seq::empty());
}

/// An entry point that forbids `unsafe` settles its crate as `Forbidden`,
/// whatever the other sources hold, and whether or not they can be read.
pub proof fn law_forbidding_entry_settles_status(sources: Seq<Seq<char>>, fs: Files)
    requires
        sources.len() > 0,
        fs.dom().contains(sources[0]),
        forbids_unsafe(fs[sources[0]]),
    ensures
        status_in(fs)(sources) == CrateOutcome::Done(Unsafe::Forbidden),
{
    law_crate_status(sources, fs);
}

/// The status that a crate with these sources has in `fs`, when all of them
/// can be read: `Forbidden` when its entry point forbids `unsafe`, else as
/// `status_of` its contents.
pub open spec fn expected_status(fs: Files) -> spec_fn(Seq<Seq<char>>) -> Unsafe {
    |sources: Seq<Seq<char>>|
        if forbids_unsafe(contents_of(sources, fs)[0]) {
            Unsafe::Forbidden
        } else {
            status_of(contents_of(sources, fs))
        }
}

/// When every file can be read, a scan of a directory fails with
/// `MissingEntryPoint` exactly when some dependency file lists no Rust source,
/// and otherwise returns one status per dependency file, in listing order.
pub proof fn law_unsafe_outcome(listing: Seq<Seq<char>>, fs: Files)
    requires
        all_readable(listing, fs),
    ensures
        unsafe_outcome(listing, fs) == if lists_no_source_from(listing, fs, 0) {
            Outcome::MissingEntryPoint
        } else {
            Outcome::Complete(results_from(listing, fs, 0, expected_status(fs)))
        },
{
    assert forall|i: int|
        0 <= i < listing.len() && is_dep_info(#[trigger] listing[i]) && dep_info_sources_of(
            fs[listing[i]],
        ).len() > 0 implies status_in(fs)(dep_info_sources_of(fs[listing[i]]))
        == CrateOutcome::Done(expected_status(fs)(dep_info_sources_of(fs[listing[i]]))) by {
        let sources = dep_info_sources_of(fs[listing[i]]);
        assert(all_sources_readable(sources, fs));
        assert(contents_of(sources, fs)[0] == fs[sources[0]]);
        law_crate_status(sources, fs);
    }
    lemma_walk_outcome_done(listing, fs, 0, Seq::empty(), status_in(fs), expected_status(fs));
    assert(Seq::<(Seq<char>, Unsafe)>::empty() + results_from(listing, fs, 0, expected_status(fs))
        =~= results_from(listing, fs, 0, expected_status(fs)));
}

/// The status that a profile amounts to.
pub open spec fn status_from_safety(s: Safety) -> Unsafe {
    match s {
        Safety::ForbidsUnsafe => Unsafe::Forbidden,
        Safety::NoUnsafe => Unsafe::Absent,
        Safety::UsesUnsafe(_) => Unsafe::Present,
    }
}

/// Of every crate in the listing whose sources can all be read and whose
/// entry point does not forbid `unsafe`, the joined sources hold an `unsafe`
/// identifier exactly when some source on its own does (which fails where a
/// source ends inside a comment or a literal, which joining carries on into
/// the next source).
pub open spec fn joined_counts_agree(listing: Seq<Seq<char>>, fs: Files) -> bool {
    forall|i: int|
        0 <= i < listing.len() && is_dep_info(#[trigger] listing[i]) && fs.dom().contains(listing[i])
            ==> {
            let sources = dep_info_sources_of(fs[listing[i]]);
            let cs = contents_of(sources, fs);
            sources.len() > 0 && all_sources_readable(sources, fs) && !forbids_unsafe(cs[0]) ==> (
            unsafe_ident_count(lex(encode_utf8(joined(cs)))) == 0) == (unsafe_total(cs) == 0)
        }
}

/// The two scans agree, where no count overflows and the joined sources of
/// each crate hold `unsafe` exactly when its sources one by one do: they fail
/// alike (with `MissingEntryPoint`, or at the same read that fails), or both
/// return one result per crate, in order, with `Forbidden`, `Absent` and
/// `Present` where the profiles are `ForbidsUnsafe`, `NoUnsafe` and `UsesUnsafe`.
pub proof fn law_scans_agree(listing: Seq<Seq<char>>, fs: Files)
    requires
        counts_fit(listing, fs),
        joined_counts_agree(listing, fs),
    ensures
        unsafe_outcome(listing, fs) == map_outcome(
            dependency_outcome(listing, fs),
            |s: Safety| status_from_safety(s),
        ),
{
    let h = |s: Safety| status_from_safety(s);
    assert forall|i: int|
        0 <= i < listing.len() && is_dep_info(#[trigger] listing[i]) && fs.dom().contains(listing[i])
            && dep_info_sources_of(fs[listing[i]]).len() > 0 implies status_in(fs)(
        dep_info_sources_of(fs[listing[i]]),
    ) == map_crate_outcome(profile_in(fs)(dep_info_sources_of(fs[listing[i]])), h) by {
        let sources = dep_info_sources_of(fs[listing[i]]);
        law_crate_profile(sources, fs);
        law_crate_status(sources, fs);
        assert(contents_of(sources, fs)[0] == fs[sources[0]]);
    }
    lemma_walk_outcome_map(listing, fs, 0, Seq::empty(), profile_in(fs), status_in(fs), h);
    assert(map_results(Seq::<(Seq<char>, Safety)>::empty(), h) =~= Seq::<(Seq<char>, Unsafe)>::empty());
}

} // verus!
