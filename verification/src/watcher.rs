//! The decisions of the two watchers: which file-system events are worth a
//! rerun, and when a polled tree has changed.
use std::time::Duration;

use vstd::prelude::*;

use crate::ignore::{ignores, IgnoreFilter, IgnoreModel};
use crate::path::{extension, path_extension};
use crate::text::{copy_strings, str_eq};

verus! {

/// Whether a path passes an extension filter: an empty filter passes every
/// path; otherwise the path must have an extension that is in the filter.
pub open spec fn passes_extension_filter(path: Seq<char>, extensions: Seq<Seq<char>>) -> bool {
    extensions.len() == 0 || match extension(path) {
        Some(e) => extensions.contains(e),
        None => false,
    }
}

/// An empty extension filter passes every path.
pub proof fn lemma_empty_filter_passes_all(path: Seq<char>)
    ensures
        passes_extension_filter(path, Seq::<Seq<char>>::empty()),
{
}

fn extension_filter(path: &str, extensions: &[String]) -> (r: bool)
    ensures
        r == passes_extension_filter(path@, extensions.deep_view()),
{
    if extensions.len() == 0 {
        return true;
    }
    let ext = match path_extension(path) {
        Some(e) => e,
        None => {
            return false;
        },
    };
    let ghost exts = extensions.deep_view();
    let mut i: usize = 0;
    while i < extensions.len()
        invariant
            exts == extensions.deep_view(),
            i <= extensions.len(),
            extensions.len() > 0,
            extension(path@) is Some,
            ext@ == extension(path@).unwrap(),
            forall|k: int| 0 <= k < i ==> exts[k] != ext@,
        decreases extensions.len() - i,
    {
        assert(exts[i as int] == extensions[i as int]@);
        if str_eq(extensions[i].as_str(), ext.as_str()) {
            assert(exts.contains(ext@));
            return true;
        }
        i = i + 1;
    }
    assert(!exts.contains(ext@)) by {
        if exts.contains(ext@) {
            let k = choose|k: int| 0 <= k < exts.len() && exts[k] == ext@;
            assert(exts[k] != ext@);
        }
    }
    false
}

/// What an event watcher is: the tree it watches, its extension filter and
/// its ignore filter.
pub struct EventWatcherModel {
    pub path: Seq<char>,
    pub extensions: Seq<Seq<char>>,
    pub ignore: IgnoreModel,
}

/// Whether an event is worth a rerun: it is about a file (not a directory),
/// it reports a creation, modification, removal or rename, the ignore
/// filter does not pass over the path and the path passes the extension
/// filter.
pub open spec fn notifies(w: EventWatcherModel, is_dir: bool, is_change: bool, path: Seq<char>) -> bool {
    !is_dir && is_change && !ignores(w.ignore, path) && passes_extension_filter(path, w.extensions)
}

/// A watcher fed by the operating system's file-system events.
pub struct FSEventWatcher {
    path: String,
    extensions: Vec<String>,
    ignore: IgnoreFilter,
}

impl View for FSEventWatcher {
    type V = EventWatcherModel;

    closed spec fn view(&self) -> EventWatcherModel {
        EventWatcherModel {
            path: self.path@,
            extensions: self.extensions.deep_view(),
            ignore: self.ignore@,
        }
    }
}

impl FSEventWatcher {
    /// A watcher of the tree at `path`.
    pub fn new(path: String, extensions: Vec<String>, ignore: IgnoreFilter) -> (r: Self)
        ensures
            r@ == (EventWatcherModel {
                path: path@,
                extensions: extensions.deep_view(),
                ignore: ignore@,
            }),
    {
        FSEventWatcher { path, extensions, ignore }
    }

    /// The root of the watched tree.
    pub fn root(&self) -> (r: &String)
        ensures
            r@ == self@.path,
    {
        &self.path
    }

    /// Whether `path` passes the extension filter `extensions`.
    pub fn matches_extension(path: &str, extensions: &[String]) -> (r: bool)
        ensures
            r == passes_extension_filter(path@, extensions.deep_view()),
    {
        extension_filter(path, extensions)
    }

    /// Whether an event about `path` is worth a rerun; `is_dir` tells that
    /// the event is about a directory and `is_change` that it reports a
    /// creation, modification, removal or rename.
    pub fn should_notify(&self, is_dir: bool, is_change: bool, path: &str) -> (r: bool)
        ensures
            r == notifies(self@, is_dir, is_change, path@),
    {
        if is_dir {
            return false;
        }
        if !is_change {
            return false;
        }
        if self.ignore.is_ignored(path) {
            return false;
        }
        Self::matches_extension(path, self.extensions.as_slice())
    }
}

impl Clone for FSEventWatcher {
    fn clone(&self) -> (r: Self)
        ensures
            r@ == self@,
    {
        let extensions = copy_strings(self.extensions.as_slice(), 0);
        assert(extensions.deep_view() =~= self.extensions.deep_view());
        FSEventWatcher { path: self.path.clone(), extensions, ignore: self.ignore.clone() }
    }
}

/// A file found in the watched tree, with the time it was last modified
/// (in nanoseconds from the Unix epoch; negative before it), when that
/// time could be read.
pub struct FileStamp {
    pub path: String,
    pub modified: Option<i128>,
}

/// Whether a file counts for the latest modification time: it passes the
/// extension filter and its time could be read.
pub open spec fn counts(f: FileStamp, extensions: Seq<Seq<char>>) -> bool {
    passes_extension_filter(f.path@, extensions) && f.modified is Some
}

/// Whether a poll that reads `current` after the baseline `last` has seen
/// a change: a time was read, and it is later than the baseline, or there
/// was none.
pub open spec fn change_seen(last: Option<i128>, current: Option<i128>) -> bool {
    match current {
        Some(c) => match last {
            Some(l) => c > l,
            None => true,
        },
        None => false,
    }
}

/// Directory events, events that report no change, and events on paths
/// the ignore filter passes over never notify, whatever the filters.
pub proof fn lemma_filtered_events_never_notify(
    w: EventWatcherModel,
    is_dir: bool,
    is_change: bool,
    path: Seq<char>,
)
    requires
        is_dir || !is_change || ignores(w.ignore, path),
    ensures
        !notifies(w, is_dir, is_change, path),
{
}

/// An event on a path outside the extension filter never notifies.
pub proof fn lemma_other_extensions_never_notify(
    w: EventWatcherModel,
    is_dir: bool,
    is_change: bool,
    path: Seq<char>,
)
    requires
        !passes_extension_filter(path, w.extensions),
    ensures
        !notifies(w, is_dir, is_change, path),
{
}

/// A change to a file that the ignore filter keeps and the extension filter
/// passes always notifies.
pub proof fn lemma_kept_file_change_notifies(w: EventWatcherModel, path: Seq<char>)
    requires
        !ignores(w.ignore, path),
        passes_extension_filter(path, w.extensions),
    ensures
        notifies(w, false, true, path),
{
}

/// A non-empty extension filter passes a path exactly when the path has an
/// extension and it is one of the filter's.
pub proof fn lemma_extension_filter_rules(path: Seq<char>, extensions: Seq<Seq<char>>)
    requires
        extensions.len() > 0,
    ensures
        passes_extension_filter(path, extensions) <==> (extension(path) is Some
            && extensions.contains(extension(path)->0)),
{
}

/// With no extension filter, every file whose time was read counts.
pub proof fn lemma_no_filter_counts_every_read_time(f: FileStamp)
    ensures
        counts(f, Seq::<Seq<char>>::empty()) <==> f.modified is Some,
{
}

/// A poll has seen a change exactly when it read a time later than the
/// baseline, or any time when there is no baseline.
pub proof fn lemma_change_rules(last: Option<i128>, current: Option<i128>)
    ensures
        current is None ==> !change_seen(last, current),
        last is None ==> (change_seen(last, current) <==> current is Some),
        forall|l: i128, c: i128|
            #![trigger change_seen(Some(l), Some(c))]
            change_seen(Some(l), Some(c)) <==> c > l,
{
}

/// A poll never reports a change while no time later than the baseline is
/// read.
pub proof fn lemma_no_later_time_no_change(last: i128, current: Option<i128>)
    requires
        current matches Some(c) ==> c <= last,
    ensures
        !change_seen(Some(last), current),
{
}

/// What a polling watcher is: the tree it watches, its extension filter,
/// how long it waits between polls and the latest time seen at start.
pub struct PollModel {
    pub path: Seq<char>,
    pub extensions: Seq<Seq<char>>,
    pub poll_interval: Duration,
    pub last_mtime: Option<i128>,
}

/// A watcher that polls the tree for the latest modification time.
pub struct PollWatcher {
    path: String,
    extensions: Vec<String>,
    poll_interval: Duration,
    last_mtime: Option<i128>,
}

impl View for PollWatcher {
    type V = PollModel;

    closed spec fn view(&self) -> PollModel {
        PollModel {
            path: self.path@,
            extensions: self.extensions.deep_view(),
            poll_interval: self.poll_interval,
            last_mtime: self.last_mtime,
        }
    }
}

impl PollWatcher {
    /// A watcher of the tree at `path`, with no baseline yet.
    pub fn new(path: String, extensions: Vec<String>, poll_interval: Duration) -> (r: Self)
        ensures
            r@ == (PollModel {
                path: path@,
                extensions: extensions.deep_view(),
                poll_interval,
                last_mtime: None,
            }),
    {
        PollWatcher { path, extensions, poll_interval, last_mtime: None }
    }

    /// The root of the watched tree.
    pub fn root(&self) -> (r: &String)
        ensures
            r@ == self@.path,
    {
        &self.path
    }

    /// How long the watcher waits between polls.
    pub fn poll_interval(&self) -> (r: Duration)
        ensures
            r == self@.poll_interval,
    {
        self.poll_interval
    }

    /// Whether `path` passes the watcher's extension filter.
    pub fn matches_extension(&self, path: &str) -> (r: bool)
        ensures
            r == passes_extension_filter(path@, self@.extensions),
    {
        extension_filter(path, self.extensions.as_slice())
    }

    /// The latest modification time among the files that count, or `None`
    /// when none does.
    pub fn latest_mtime(&self, files: &[FileStamp]) -> (r: Option<i128>)
        ensures
            r is None <==> forall|k: int| 0 <= k < files@.len() ==> !counts(#[trigger] files@[k], self@.extensions),
            r matches Some(m) ==> exists|k: int|
                0 <= k < files@.len() && counts(#[trigger] files@[k], self@.extensions) && files@[k].modified == Some(m),
            r matches Some(m) ==> forall|k: int|
                0 <= k < files@.len() && counts(#[trigger] files@[k], self@.extensions) ==> files@[k].modified->0 <= m,
            self@.extensions.len() == 0 ==> (r is None <==> forall|k: int|
                0 <= k < files@.len() ==> (#[trigger] files@[k]).modified is None),
            self@.extensions.len() == 0 ==> (r matches Some(m) ==> forall|k: int|
                0 <= k < files@.len() && (#[trigger] files@[k]).modified is Some ==> files@[k].modified->0 <= m),
            r matches Some(m) ==> exists|k: int|
                0 <= k < files@.len() && (#[trigger] files@[k]).modified == Some(m),
    {
        let mut latest: Option<i128> = None;
        let mut i: usize = 0;
        while i < files.len()
            invariant
                i <= files.len(),
                latest is None <==> forall|k: int| 0 <= k < i ==> !counts(#[trigger] files@[k], self@.extensions),
                latest matches Some(m) ==> exists|k: int|
                    0 <= k < i && counts(#[trigger] files@[k], self@.extensions) && files@[k].modified == Some(m),
                latest matches Some(m) ==> forall|k: int|
                    0 <= k < i && counts(#[trigger] files@[k], self@.extensions) ==> files@[k].modified->0 <= m,
            decreases files.len() - i,
        {
            let f = &files[i];
            if self.matches_extension(f.path.as_str()) {
                match f.modified {
                    Some(t) => {
                        assert(counts(files@[i as int], self@.extensions));
                        latest = match latest {
                            Some(curr) => if t > curr {
                                Some(t)
                            } else {
                                Some(curr)
                            },
                            None => Some(t),
                        };
                    },
                    None => {
                        assert(!counts(files@[i as int], self@.extensions));
                    },
                }
            } else {
                assert(!counts(files@[i as int], self@.extensions));
            }
            i = i + 1;
        }
        latest
    }

    /// Records the latest time seen when watching starts.
    pub fn set_baseline(&mut self, latest: Option<i128>)
        ensures
            final(self)@ == (PollModel { last_mtime: latest, ..old(self)@ }),
    {
        self.last_mtime = latest;
    }

    /// Whether a poll that read `current` has seen a change since the
    /// baseline.
    pub fn changed(&self, current: Option<i128>) -> (r: bool)
        ensures
            r == change_seen(self@.last_mtime, current),
    {
        match current {
            Some(c) => match self.last_mtime {
                Some(l) => c > l,
                None => true,
            },
            None => false,
        }
    }
}

} // verus!
