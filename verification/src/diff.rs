//! Comparison of the working tree with the index, one walked file at a time.
use vstd::prelude::*;
use crate::index::{lists_stats, FileStat, FileView, Index};
use crate::table::Table;
use crate::text::lex_less;

verus! {

/// A file of the working tree.
#[derive(Debug)]
pub struct LocalFile {
    /// Path below the repository, with forward slashes.
    pub rel_path: String,
    pub abs_path: String,
    pub size: u64,
    pub mtime: i64,
}

impl Clone for LocalFile {
    fn clone(&self) -> (r: Self)
        ensures
            r == *self,
    {
        LocalFile {
            rel_path: self.rel_path.clone(),
            abs_path: self.abs_path.clone(),
            size: self.size,
            mtime: self.mtime,
        }
    }
}

/// A path as the index writes it: a backslash becomes a slash.
pub open spec fn normalized(path: Seq<char>) -> Seq<char> {
    path.map_values(
        |c: char|
            if c == '\\' {
                '/'
            } else {
                c
            },
    )
}

/// Writes a path as the index does.
pub fn normalize_path(path: &str) -> (r: String)
    ensures
        r@ == normalized(path@),
{
    let chars = crate::text::chars_of(path);
    let mut r = String::new();
    let mut i: usize = 0;
    while i < chars.len()
        invariant
            i <= chars@.len(),
            chars@ == path@,
            r@ == normalized(path@).subrange(0, i as int),
        decreases chars@.len() - i,
    {
        let c = chars[i];
        r.push(if c == '\\' { '/' } else { c });
        i += 1;
        assert(r@ =~= normalized(path@).subrange(0, i as int));
    }
    assert(normalized(path@).subrange(0, i as int) =~= normalized(path@));
    r
}

/// How many files differ, and how.
#[derive(Debug, Clone, Copy, PartialEq, Eq, Structural)]
pub struct Changes {
    pub new: u64,
    pub modified: u64,
    pub deleted: u64,
    pub unchanged: u64,
}

impl Default for Changes {
    fn default() -> (r: Self)
        ensures
            r == (Changes { new: 0, modified: 0, deleted: 0, unchanged: 0 }),
    {
        Changes { new: 0, modified: 0, deleted: 0, unchanged: 0 }
    }
}

/// What a scan has seen so far.
#[derive(Debug, Clone, Copy, PartialEq, Eq, Structural)]
pub struct ScanStats {
    pub scanned: u64,
    pub dirs: u64,
    pub bytes: u64,
}

impl Default for ScanStats {
    fn default() -> (r: Self)
        ensures
            r == (ScanStats { scanned: 0, dirs: 0, bytes: 0 }),
    {
        ScanStats { scanned: 0, dirs: 0, bytes: 0 }
    }
}

/// What a scan reports.
#[derive(Debug)]
pub enum ScanEvent {
    New(LocalFile),
    Modified(LocalFile),
    Unchanged(LocalFile),
    Deleted(String),
    Progress(ScanStats),
}

impl Changes {
    /// The counts with one more event.
    pub open spec fn counted(self, event: ScanEvent) -> Changes {
        match event {
            ScanEvent::New(_) => Changes { new: (self.new + 1) as u64, ..self },
            ScanEvent::Modified(_) => Changes { modified: (self.modified + 1) as u64, ..self },
            ScanEvent::Unchanged(_) => Changes { unchanged: (self.unchanged + 1) as u64, ..self },
            ScanEvent::Deleted(_) => Changes { deleted: (self.deleted + 1) as u64, ..self },
            ScanEvent::Progress(_) => self,
        }
    }

    /// Whether one more event can be counted.
    pub open spec fn has_room(self, event: ScanEvent) -> bool {
        match event {
            ScanEvent::New(_) => self.new < u64::MAX,
            ScanEvent::Modified(_) => self.modified < u64::MAX,
            ScanEvent::Unchanged(_) => self.unchanged < u64::MAX,
            ScanEvent::Deleted(_) => self.deleted < u64::MAX,
            ScanEvent::Progress(_) => true,
        }
    }

    /// Counts an event.
    pub fn count(&mut self, event: &ScanEvent)
        requires
            old(self).has_room(*event),
        ensures
            *final(self) == old(self).counted(*event),
    {
        match event {
            ScanEvent::New(_) => {
                self.new = self.new + 1;
            },
            ScanEvent::Modified(_) => {
                self.modified = self.modified + 1;
            },
            ScanEvent::Unchanged(_) => {
                self.unchanged = self.unchanged + 1;
            },
            ScanEvent::Deleted(_) => {
                self.deleted = self.deleted + 1;
            },
            ScanEvent::Progress(_) => {},
        }
    }

    /// Whether nothing differs.
    pub fn is_clean(&self) -> (r: bool)
        ensures
            r == (self.new == 0 && self.modified == 0 && self.deleted == 0),
    {
        self.new == 0 && self.modified == 0 && self.deleted == 0
    }
}

/// What a walked file is, given what the index knew of its path.
pub open spec fn classified(
    previous: Map<Seq<char>, (u64, i64)>,
    file: LocalFile,
) -> ScanEvent {
    if !previous.dom().contains(file.rel_path@) {
        ScanEvent::New(file)
    } else if previous[file.rel_path@] == (file.size, file.mtime) {
        ScanEvent::Unchanged(file)
    } else {
        ScanEvent::Modified(file)
    }
}

/// Size and time of every present file.
pub open spec fn stats_of(files: Map<Seq<char>, FileView>) -> Map<Seq<char>, (u64, i64)> {
    Map::new(
        |path: Seq<char>| files.dom().contains(path) && !files[path].deleted,
        |path: Seq<char>| (files[path].size, files[path].mtime),
    )
}

/// Whether a list holds the keys of a map in ascending order.
pub open spec fn ascending_keys(
    list: Seq<Seq<char>>,
    map: Map<Seq<char>, (u64, i64)>,
) -> bool {
    &&& forall|i: int, j: int|
        #![trigger list[i], list[j]]
        0 <= i < j < list.len() ==> lex_less(list[i], list[j])
    &&& forall|i: int| 0 <= i < list.len() ==> map.dom().contains(#[trigger] list[i])
    &&& forall|path: Seq<char>| #[trigger]
        map.dom().contains(path) ==> exists|i: int|
            0 <= i < list.len() && #[trigger] list[i] == path
}

/// What a scan knows.
pub ghost struct ScannerView {
    /// Files of the index that have not been walked yet.
    pub previous: Map<Seq<char>, (u64, i64)>,
    /// Once the walk is over, the deleted paths still to be reported.
    pub deleted: Option<Seq<Seq<char>>>,
    pub stats: ScanStats,
    pub last_progress: u64,
    pub pending_progress: bool,
}

impl ScannerView {
    /// Whether a step, and what the scan then knows, come next.
    pub open spec fn polls(self, now: u64, step: ScanStep, after: ScannerView) -> bool {
        if self.pending_progress {
            &&& step == ScanStep::Event(ScanEvent::Progress(self.stats))
            &&& after == ScannerView { pending_progress: false, last_progress: now, ..self }
        } else if self.deleted is None {
            step == ScanStep::Walk && after == self
        } else if self.deleted->0.len() == 0 {
            step == ScanStep::Done && after == self
        } else {
            &&& step is Event
            &&& step->Event_0 is Deleted
            &&& step->Event_0->Deleted_0@ == self.deleted->0[0]
            &&& after == ScannerView { deleted: Some(self.deleted->0.drop_first()), ..self }
        }
    }

    /// What the scan knows after a walked directory.
    pub open spec fn after_dir(self) -> ScannerView {
        ScannerView {
            stats: ScanStats { dirs: (self.stats.dirs + 1) as u64, ..self.stats },
            ..self
        }
    }

    /// What the scan knows after a walked file. A report of progress falls due with every 256th
    /// file, half a second after the last one at the earliest.
    pub open spec fn after_file(self, file: LocalFile, now: u64) -> ScannerView {
        ScannerView {
            previous: self.previous.remove(file.rel_path@),
            stats: ScanStats {
                scanned: (self.stats.scanned + 1) as u64,
                bytes: (self.stats.bytes + file.size) as u64,
                ..self.stats
            },
            pending_progress: self.pending_progress || ((self.stats.scanned + 1) % 256 == 0 && now
                - self.last_progress >= 500),
            ..self
        }
    }

    /// Whether this is what the scan knows after the end of the walk: what is left is deleted.
    pub open spec fn ends(self, after: ScannerView) -> bool {
        &&& after.deleted is Some
        &&& ascending_keys(after.deleted->0, self.previous)
        &&& after == ScannerView { previous: Map::empty(), deleted: after.deleted, ..self }
    }
}

/// What a scan does next.
#[derive(Debug)]
pub enum ScanStep {
    /// Report an event.
    Event(ScanEvent),
    /// Walk on.
    Walk,
    /// Nothing is left.
    Done,
}

/// A scan of the working tree. Instants are milliseconds on one clock.
pub struct Scanner {
    previous: Table<FileStat>,
    deleted: Option<Vec<String>>,
    reported: usize,
    stats: ScanStats,
    last_progress: u64,
    pending_progress: bool,
}

impl View for Scanner {
    type V = ScannerView;

    closed spec fn view(&self) -> ScannerView {
        ScannerView {
            previous: self.previous@,
            deleted: match self.deleted {
                Some(list) => Some(
                    list@.subrange(self.reported as int, list@.len() as int).map_values(
                        |s: String| s@,
                    ),
                ),
                None => None,
            },
            stats: self.stats,
            last_progress: self.last_progress,
            pending_progress: self.pending_progress,
        }
    }
}

impl Scanner {
    /// The invariant of a scan.
    pub closed spec fn wf(&self) -> bool {
        &&& self.previous.wf()
        &&& self.deleted is Some ==> self.reported <= self.deleted->0@.len()
    }

    /// A scan against an index, which is read once.
    pub fn new(index: &Index, now: u64) -> (r: Self)
        requires
            index.wf(),
        ensures
            r.wf(),
            r@ == (ScannerView {
                previous: stats_of(index@.files),
                deleted: None,
                stats: ScanStats { scanned: 0, dirs: 0, bytes: 0 },
                last_progress: now,
                pending_progress: false,
            }),
    {
        let list = index.stat_map();
        let mut previous: Table<FileStat> = Table::new();
        let mut i: usize = 0;
        while i < list.len()
            invariant
                previous.wf(),
                i <= list@.len(),
                lists_stats(list@, index@.files),
                forall|path: Seq<char>| #[trigger]
                    previous@.dom().contains(path) <==> exists|j: int|
                        0 <= j < i && (#[trigger] list@[j]).path@ == path,
                forall|path: Seq<char>| #[trigger]
                    previous@.dom().contains(path) ==> previous@[path] == (
                        index@.files[path].size,
                        index@.files[path].mtime,
                    ),
            decreases list@.len() - i,
        {
            let row = FileStat {
                path: list[i].path.clone(),
                size: list[i].size,
                mtime: list[i].mtime,
            };
            let ghost before = previous@;
            let ghost key = list@[i as int].path@;
            previous.put(row);
            assert forall|path: Seq<char>| #[trigger]
                previous@.dom().contains(path) <==> exists|j: int|
                    0 <= j < i + 1 && (#[trigger] list@[j]).path@ == path by {
                if path == key {
                    assert(list@[i as int].path@ == path);
                } else if before.dom().contains(path) {
                    let j = choose|j: int| 0 <= j < i && (#[trigger] list@[j]).path@ == path;
                    assert(list@[j].path@ == path);
                }
            }
            i += 1;
        }
        proof {
            assert forall|path: Seq<char>| #[trigger]
                stats_of(index@.files).dom().contains(path) <==> previous@.dom().contains(path) by {
                if stats_of(index@.files).dom().contains(path) {
                    assert(index@.files.dom().contains(path));
                }
                if previous@.dom().contains(path) {
                    let j = choose|j: int|
                        0 <= j < list@.len() && (#[trigger] list@[j]).path@ == path;
                    assert(list@[j].path@ == path);
                }
            }
            assert(previous@ =~= stats_of(index@.files));
        }
        Scanner {
            previous,
            deleted: None,
            reported: 0,
            stats: ScanStats::default(),
            last_progress: now,
            pending_progress: false,
        }
    }

    /// What comes next: a due report of progress, then the deleted paths once the walk is over,
    /// else more of the walk.
    pub fn poll(&mut self, now: u64) -> (r: ScanStep)
        requires
            old(self).wf(),
        ensures
            final(self).wf(),
            old(self)@.polls(now, r, final(self)@),
    {
        if self.pending_progress {
            self.pending_progress = false;
            self.last_progress = now;
            return ScanStep::Event(ScanEvent::Progress(self.stats));
        }
        match &self.deleted {
            Some(list) => {
                if self.reported < list.len() {
                    let path = list[self.reported].clone();
                    let ghost names = |s: String| s@;
                    assert(list@.subrange(self.reported + 1, list@.len() as int).map_values(names)
                        =~= list@.subrange(self.reported as int, list@.len() as int).map_values(
                        names,
                    ).drop_first());
                    self.reported = self.reported + 1;
                    ScanStep::Event(ScanEvent::Deleted(path))
                } else {
                    ScanStep::Done
                }
            },
            None => ScanStep::Walk,
        }
    }

    /// Takes a walked directory.
    pub fn walked_dir(&mut self)
        requires
            old(self).wf(),
            old(self)@.stats.dirs < u64::MAX,
        ensures
            final(self).wf(),
            final(self)@ == old(self)@.after_dir(),
    {
        self.stats.dirs = self.stats.dirs + 1;
    }

    /// Takes a walked file. It is unchanged if the index has it with the same size and time. A
    /// report of progress falls due with every 256th file, half a second after the last one at
    /// the earliest.
    pub fn walked_file(&mut self, file: LocalFile, now: u64) -> (r: ScanEvent)
        requires
            old(self).wf(),
            old(self)@.stats.scanned < u64::MAX,
            old(self)@.stats.bytes + file.size <= u64::MAX,
        ensures
            final(self).wf(),
            r == classified(old(self)@.previous, file),
            final(self)@ == old(self)@.after_file(file, now),
    {
        self.stats.scanned = self.stats.scanned + 1;
        self.stats.bytes = self.stats.bytes + file.size;
        if self.stats.scanned % 256 == 0 && now >= self.last_progress && now - self.last_progress
            >= 500 {
            self.pending_progress = true;
        }
        let prior: Option<(u64, i64)> = match self.previous.get(file.rel_path.as_str()) {
            Some(row) => Some((row.size, row.mtime)),
            None => None,
        };
        self.previous.remove(file.rel_path.as_str());
        match prior {
            Some((size, mtime)) => {
                if size == file.size && mtime == file.mtime {
                    ScanEvent::Unchanged(file)
                } else {
                    ScanEvent::Modified(file)
                }
            },
            None => ScanEvent::New(file),
        }
    }

    /// Ends the walk: what is left of the index is deleted, and is reported in the order of the
    /// paths.
    pub fn walk_finished(&mut self)
        requires
            old(self).wf(),
        ensures
            final(self).wf(),
            old(self)@.ends(final(self)@),
            final(self)@.deleted->0.len() <= usize::MAX,
    {
        let ghost keys = self.previous.keys();
        proof {
            self.previous.keys_ascend();
        }
        let mut list: Vec<String> = Vec::new();
        let mut i: usize = 0;
        while i < self.previous.len()
            invariant
                *self == *old(self),
                self.previous.wf(),
                keys == self.previous.keys(),
                i <= keys.len(),
                list@.len() == i,
                forall|j: int| 0 <= j < i ==> (#[trigger] list@[j])@ == keys[j],
            decreases keys.len() - i,
        {
            list.push(self.previous.at(i).path.clone());
            i += 1;
        }
        let total: usize = list.len();
        proof {
            let names = |s: String| s@;
            assert(list@.subrange(0, total as int).map_values(names) =~= keys);
        }
        self.deleted = Some(list);
        self.reported = 0;
        self.previous = Table::new();
    }
}

/// Those files of the index that are left when some have been walked.
pub open spec fn left_after(
    previous: Map<Seq<char>, (u64, i64)>,
    files: Seq<LocalFile>,
) -> Map<Seq<char>, (u64, i64)>
    decreases files.len(),
{
    if files.len() == 0 {
        previous
    } else {
        left_after(previous, files.drop_last()).remove(files.last().rel_path@)
    }
}

/// Whether a path was walked.
pub open spec fn walked(files: Seq<LocalFile>, path: Seq<char>) -> bool {
    exists|i: int| 0 <= i < files.len() && (#[trigger] files[i]).rel_path@ == path
}

/// A file of the index is left just if no walked file has its path, and it is left as it was.
pub proof fn left_is_the_rest(previous: Map<Seq<char>, (u64, i64)>, files: Seq<LocalFile>)
    ensures
        forall|path: Seq<char>| #[trigger]
            left_after(previous, files).dom().contains(path) <==> previous.dom().contains(path)
                && !walked(files, path),
        forall|path: Seq<char>| #[trigger]
            left_after(previous, files).dom().contains(path) ==> left_after(previous, files)[path]
                == previous[path],
    decreases files.len(),
{
    if files.len() > 0 {
        let front = files.drop_last();
        left_is_the_rest(previous, front);
        assert forall|path: Seq<char>| #[trigger]
            left_after(previous, files).dom().contains(path) <==> previous.dom().contains(path)
                && !walked(files, path) by {
            assert(left_after(previous, files).dom().contains(path) <==> left_after(
                previous,
                front,
            ).dom().contains(path) && path != files.last().rel_path@);
            if walked(files, path) {
                let i = choose|i: int|
                    0 <= i < files.len() && (#[trigger] files[i]).rel_path@ == path;
                if i < front.len() {
                    assert(front[i].rel_path@ == path);
                }
            }
            if walked(front, path) {
                let i = choose|i: int|
                    0 <= i < front.len() && (#[trigger] front[i]).rel_path@ == path;
                assert(files[i].rel_path@ == path);
            }
            if files.last().rel_path@ == path {
                assert(files[files.len() - 1].rel_path@ == path);
            }
        }
        assert forall|path: Seq<char>| #[trigger]
            left_after(previous, files).dom().contains(path) implies left_after(
            previous,
            files,
        )[path] == previous[path] by {
            assert(left_after(previous, front).dom().contains(path));
        }
    }
}

/// Where no path is walked twice, each walked file is compared with what the index had for its
/// path, whatever was walked before it.
pub proof fn order_does_not_matter(
    previous: Map<Seq<char>, (u64, i64)>,
    files: Seq<LocalFile>,
    i: int,
)
    requires
        0 <= i < files.len(),
        forall|a: int, b: int|
            #![trigger files[a], files[b]]
            0 <= a < b < files.len() ==> files[a].rel_path@ != files[b].rel_path@,
    ensures
        classified(left_after(previous, files.subrange(0, i)), files[i]) == classified(
            previous,
            files[i],
        ),
{
    let before = files.subrange(0, i);
    left_is_the_rest(previous, before);
    let path = files[i].rel_path@;
    if walked(before, path) {
        let k = choose|k: int| 0 <= k < before.len() && (#[trigger] before[k]).rel_path@ == path;
        assert(files[k].rel_path@ != files[i].rel_path@);
    }
    assert(left_after(previous, before).dom().contains(path) <==> previous.dom().contains(path));
}

/// What a scan of a tree reports, where no path is walked twice: each walked file once, in the
/// order of the walk, compared with what the index had for its path; then, once each and in
/// ascending order, exactly the paths of the index that were not walked, as deleted.
pub proof fn scan_is_exact(
    events: Seq<ScanEvent>,
    previous: Map<Seq<char>, (u64, i64)>,
    files: Seq<LocalFile>,
)
    requires
        is_scan(events, previous, files),
        forall|a: int, b: int|
            #![trigger files[a], files[b]]
            0 <= a < b < files.len() ==> files[a].rel_path@ != files[b].rel_path@,
    ensures
        files.len() <= events.len(),
        forall|i: int|
            0 <= i < files.len() ==> #[trigger] events[i] == classified(previous, files[i]),
        forall|i: int| files.len() <= i < events.len() ==> (#[trigger] events[i]) is Deleted,
        forall|i: int, j: int|
            #![trigger events[i], events[j]]
            files.len() <= i < j < events.len() ==> lex_less(
                events[i]->Deleted_0@,
                events[j]->Deleted_0@,
            ),
        forall|path: Seq<char>| #[trigger]
            reports_deleted(events, path) <==> previous.dom().contains(path) && !walked(
                files,
                path,
            ),
{
    let n = files.len() as int;
    let gone = |e: ScanEvent| e->Deleted_0@;
    let list = events.subrange(n, events.len() as int).map_values(gone);
    left_is_the_rest(previous, files);
    assert forall|i: int| 0 <= i < n implies #[trigger] events[i] == classified(
        previous,
        files[i],
    ) by {
        order_does_not_matter(previous, files, i);
    }
    assert forall|i: int, j: int|
        #![trigger events[i], events[j]]
        n <= i < j < events.len() implies lex_less(
        events[i]->Deleted_0@,
        events[j]->Deleted_0@,
    ) by {
        assert(list[i - n] == events[i]->Deleted_0@);
        assert(list[j - n] == events[j]->Deleted_0@);
    }
    assert forall|path: Seq<char>| #[trigger]
        reports_deleted(events, path) <==> previous.dom().contains(path) && !walked(
            files,
            path,
        ) by {
        if reports_deleted(events, path) {
            let i = choose|i: int|
                0 <= i < events.len() && (#[trigger] events[i]) is Deleted
                    && events[i]->Deleted_0@ == path;
            if i < n {
                assert(events[i] == classified(previous, files[i]));
            }
            assert(list[i - n] == path);
            assert(left_after(previous, files).dom().contains(list[i - n]));
        }
        if previous.dom().contains(path) && !walked(files, path) {
            assert(left_after(previous, files).dom().contains(path));
            let k = choose|k: int| 0 <= k < list.len() && #[trigger] list[k] == path;
            assert(events[n + k] is Deleted && events[n + k]->Deleted_0@ == list[k]);
        }
    }
}

/// How a walked file is told of, against what the index has: new just if the index has no present
/// file with its path, unchanged just if it has one with the same size and the same time, modified
/// otherwise; and it is told of as it was walked.
pub proof fn file_is_told_of_truly(files: Map<Seq<char>, FileView>, file: LocalFile)
    ensures
        ({
            let path = file.rel_path@;
            let known = files.dom().contains(path) && !files[path].deleted;
            let same = files[path].size == file.size && files[path].mtime == file.mtime;
            let event = classified(stats_of(files), file);
            &&& event is New <==> !known
            &&& event is Unchanged <==> known && same
            &&& event is Modified <==> known && !same
            &&& event is New ==> event == ScanEvent::New(file)
            &&& event is Unchanged ==> event == ScanEvent::Unchanged(file)
            &&& event is Modified ==> event == ScanEvent::Modified(file)
        }),
{
}

/// What a scan against an index tells, where no path is walked twice: of each walked file whether
/// it is new, unchanged or modified; and that exactly those present files are deleted that were not
/// walked.
pub proof fn scan_tells_what_changed(
    events: Seq<ScanEvent>,
    index: Map<Seq<char>, FileView>,
    files: Seq<LocalFile>,
)
    requires
        is_scan(events, stats_of(index), files),
        forall|a: int, b: int|
            #![trigger files[a], files[b]]
            0 <= a < b < files.len() ==> files[a].rel_path@ != files[b].rel_path@,
    ensures
        files.len() <= events.len(),
        forall|i: int|
            0 <= i < files.len() ==> {
                let path = files[i].rel_path@;
                let known = index.dom().contains(path) && !index[path].deleted;
                let same = index[path].size == files[i].size && index[path].mtime
                    == files[i].mtime;
                (#[trigger] events[i]) == if !known {
                    ScanEvent::New(files[i])
                } else if same {
                    ScanEvent::Unchanged(files[i])
                } else {
                    ScanEvent::Modified(files[i])
                }
            },
        forall|i: int| files.len() <= i < events.len() ==> (#[trigger] events[i]) is Deleted,
        forall|i: int|
            files.len() <= i < events.len() ==> {
                let path = (#[trigger] events[i])->Deleted_0@;
                &&& index.dom().contains(path) && !index[path].deleted
                &&& forall|k: int|
                    0 <= k < files.len() ==> (#[trigger] files[k]).rel_path@ != path
            },
        forall|path: Seq<char>| #[trigger]
            index.dom().contains(path) && !index[path].deleted && (forall|k: int|
                0 <= k < files.len() ==> (#[trigger] files[k]).rel_path@ != path) ==> exists|
                i: int,
            |
                files.len() <= i < events.len() && (#[trigger] events[i])->Deleted_0@ == path,
{
    let previous = stats_of(index);
    scan_is_exact(events, previous, files);
    assert forall|i: int| files.len() <= i < events.len() implies ({
        let path = (#[trigger] events[i])->Deleted_0@;
        &&& index.dom().contains(path) && !index[path].deleted
        &&& forall|k: int| 0 <= k < files.len() ==> (#[trigger] files[k]).rel_path@ != path
    }) by {
        let path = events[i]->Deleted_0@;
        assert(reports_deleted(events, path));
        assert(previous.dom().contains(path) && !walked(files, path));
    }
    assert forall|path: Seq<char>| #[trigger]
        index.dom().contains(path) && !index[path].deleted && (forall|k: int|
            0 <= k < files.len() ==> (#[trigger] files[k]).rel_path@ != path) implies exists|i: int|
        files.len() <= i < events.len() && (#[trigger] events[i])->Deleted_0@ == path by {
        assert(previous.dom().contains(path));
        assert(reports_deleted(events, path));
        let i = choose|i: int|
            0 <= i < events.len() && (#[trigger] events[i]) is Deleted && events[i]->Deleted_0@
                == path;
        if i < files.len() {
            assert(events[i] == classified(previous, files[i]));
        }
    }
}

/// A scan counts what it walks: each file once with its size, each directory once. A report of
/// progress falls due only with a number of files that 256 divides, and half a second after the
/// last one at the earliest; once due it stays so until it is made.
pub proof fn scan_counts_what_it_walks(view: ScannerView, file: LocalFile, now: u64)
    requires
        view.stats.scanned < u64::MAX,
        view.stats.dirs < u64::MAX,
        view.stats.bytes + file.size <= u64::MAX,
    ensures
        ({
            let after = view.after_file(file, now);
            let dir = view.after_dir();
            &&& after.stats.scanned == view.stats.scanned + 1
            &&& after.stats.bytes == view.stats.bytes + file.size
            &&& after.stats.dirs == view.stats.dirs
            &&& !after.previous.dom().contains(file.rel_path@)
            &&& forall|path: Seq<char>|
                path != file.rel_path@ ==> #[trigger] after.previous.dom().contains(path)
                    == view.previous.dom().contains(path) && after.previous[path]
                    == view.previous[path]
            &&& after.deleted == view.deleted && dir.deleted == view.deleted
            &&& view.pending_progress ==> after.pending_progress
            &&& !view.pending_progress ==> (after.pending_progress <==> (view.stats.scanned + 1)
                % 256 == 0 && now >= view.last_progress + 500)
            &&& after.last_progress == view.last_progress
            &&& dir.stats.dirs == view.stats.dirs + 1
            &&& dir.stats.scanned == view.stats.scanned && dir.stats.bytes == view.stats.bytes
            &&& dir.previous == view.previous && dir.pending_progress == view.pending_progress
        }),
{
}

/// A path keeps its length and all its characters but the backslashes, which become slashes.
pub proof fn only_backslashes_change(path: Seq<char>)
    ensures
        normalized(path).len() == path.len(),
        forall|i: int|
            0 <= i < path.len() ==> {
                &&& (#[trigger] path[i]) == '\\' ==> normalized(path)[i] == '/'
                &&& path[i] != '\\' ==> normalized(path)[i] == path[i]
            },
        normalized(normalized(path)) == normalized(path),
{
    assert(normalized(normalized(path)) =~= normalized(path));
}

/// Whether events report a path as deleted.
pub open spec fn reports_deleted(events: Seq<ScanEvent>, path: Seq<char>) -> bool {
    exists|i: int|
        0 <= i < events.len() && (#[trigger] events[i]) is Deleted && events[i]->Deleted_0@ == path
}

/// What events report as deleted with one more event.
pub proof fn reports_deleted_last(events: Seq<ScanEvent>, event: ScanEvent)
    ensures
        forall|path: Seq<char>| #[trigger]
            reports_deleted(events.push(event), path) <==> reports_deleted(events, path) || (event
                is Deleted && event->Deleted_0@ == path),
{
    let more = events.push(event);
    assert forall|path: Seq<char>| #[trigger]
        reports_deleted(more, path) <==> reports_deleted(events, path) || (event is Deleted
            && event->Deleted_0@ == path) by {
        if reports_deleted(more, path) {
            let i = choose|i: int|
                0 <= i < more.len() && (#[trigger] more[i]) is Deleted && more[i]->Deleted_0@
                    == path;
            if i < events.len() {
                assert(events[i] == more[i]);
            }
        }
        if reports_deleted(events, path) {
            let i = choose|i: int|
                0 <= i < events.len() && (#[trigger] events[i]) is Deleted
                    && events[i]->Deleted_0@ == path;
            assert(more[i] == events[i]);
        }
        if event is Deleted && event->Deleted_0@ == path {
            assert(more[events.len() as int] is Deleted);
        }
    }
}

/// The counts of events.
pub open spec fn counts(events: Seq<ScanEvent>) -> Changes
    decreases events.len(),
{
    if events.len() == 0 {
        Changes { new: 0, modified: 0, deleted: 0, unchanged: 0 }
    } else {
        counts(events.drop_last()).counted(events.last())
    }
}

/// Counts do not exceed the number of events.
proof fn counts_bounded(events: Seq<ScanEvent>)
    requires
        events.len() <= u64::MAX,
    ensures
        counts(events).new <= events.len(),
        counts(events).modified <= events.len(),
        counts(events).deleted <= events.len(),
        counts(events).unchanged <= events.len(),
    decreases events.len(),
{
    if events.len() > 0 {
        counts_bounded(events.drop_last());
    }
}

/// Whether events report a scan: first what each walked file is, in order, then the paths of the
/// index that were not walked, each once, in ascending order, as deleted.
pub open spec fn is_scan(
    events: Seq<ScanEvent>,
    previous: Map<Seq<char>, (u64, i64)>,
    files: Seq<LocalFile>,
) -> bool {
    let n = files.len() as int;
    &&& n <= events.len()
    &&& forall|i: int|
        0 <= i < n ==> #[trigger] events[i] == classified(
            left_after(previous, files.subrange(0, i)),
            files[i],
        )
    &&& forall|i: int| n <= i < events.len() ==> (#[trigger] events[i]) is Deleted
    &&& ascending_keys(
        events.subrange(n, events.len() as int).map_values(|e: ScanEvent| e->Deleted_0@),
        left_after(previous, files),
    )
}

/// One call on a scan, with what it returned.
pub ghost enum ScanMove {
    /// A directory was walked.
    Dir,
    /// A file was walked at an instant, which led to an event.
    File(LocalFile, u64, ScanEvent),
    /// The walk ended.
    End,
    /// The scan was asked at an instant what comes next.
    Poll(u64, ScanStep),
}

/// Whether a call leads from what the scan knew to what it knows. Nothing is walked after the end
/// of the walk.
pub open spec fn moved(before: ScannerView, call: ScanMove, after: ScannerView) -> bool {
    match call {
        ScanMove::Dir => before.deleted is None && after == before.after_dir(),
        ScanMove::File(file, now, event) => {
            &&& before.deleted is None
            &&& event == classified(before.previous, file)
            &&& after == before.after_file(file, now)
        },
        ScanMove::End => before.deleted is None && before.ends(after),
        ScanMove::Poll(now, step) => before.polls(now, step, after),
    }
}

/// The files walked in a row of calls.
pub open spec fn files_of(calls: Seq<ScanMove>) -> Seq<LocalFile>
    decreases calls.len(),
{
    if calls.len() == 0 {
        Seq::empty()
    } else {
        let before = files_of(calls.drop_last());
        match calls.last() {
            ScanMove::File(file, _, _) => before.push(file),
            _ => before,
        }
    }
}

/// The events reported in a row of calls.
pub open spec fn events_of(calls: Seq<ScanMove>) -> Seq<ScanEvent>
    decreases calls.len(),
{
    if calls.len() == 0 {
        Seq::empty()
    } else {
        let before = events_of(calls.drop_last());
        match calls.last() {
            ScanMove::File(_, _, event) => before.push(event),
            ScanMove::Poll(_, ScanStep::Event(event)) => before.push(event),
            _ => before,
        }
    }
}

/// Events without the reports of progress.
pub open spec fn without_progress(events: Seq<ScanEvent>) -> Seq<ScanEvent> {
    events.filter(|event: ScanEvent| !(event is Progress))
}

/// Reports of progress aside, one event more is one more.
pub proof fn without_progress_last(events: Seq<ScanEvent>, event: ScanEvent)
    ensures
        without_progress(events.push(event)) == if event is Progress {
            without_progress(events)
        } else {
            without_progress(events).push(event)
        },
{
    reveal(Seq::filter);
    assert(events.push(event).drop_last() =~= events);
}

/// Whether the events so far, without progress, are the front part of a report on the files so
/// far, and the scan knows the rest of it.
pub open spec fn is_front(
    view: ScannerView,
    events: Seq<ScanEvent>,
    previous: Map<Seq<char>, (u64, i64)>,
    files: Seq<LocalFile>,
) -> bool {
    let n = files.len() as int;
    &&& n <= events.len()
    &&& forall|i: int|
        0 <= i < n ==> #[trigger] events[i] == classified(
            left_after(previous, files.subrange(0, i)),
            files[i],
        )
    &&& forall|i: int| n <= i < events.len() ==> (#[trigger] events[i]) is Deleted
    &&& match view.deleted {
        None => events.len() == n && view.previous == left_after(previous, files),
        Some(rest) => ascending_keys(
            events.subrange(n, events.len() as int).map_values(|e: ScanEvent| e->Deleted_0@)
                + rest,
            left_after(previous, files),
        ),
    }
}

/// A call keeps the events so far a front part of a report.
proof fn front_grows(
    before: ScannerView,
    call: ScanMove,
    after: ScannerView,
    calls: Seq<ScanMove>,
    previous: Map<Seq<char>, (u64, i64)>,
)
    requires
        moved(before, call, after),
        is_front(before, without_progress(events_of(calls)), previous, files_of(calls)),
    ensures
        is_front(
            after,
            without_progress(events_of(calls.push(call))),
            previous,
            files_of(calls.push(call)),
        ),
{
    let more = calls.push(call);
    assert(more.drop_last() =~= calls);
    let files = files_of(calls);
    let events = without_progress(events_of(calls));
    let n = files.len() as int;
    let gone = |e: ScanEvent| e->Deleted_0@;
    match call {
        ScanMove::Dir => {},
        ScanMove::File(file, now, event) => {
            without_progress_last(events_of(calls), event);
            let longer = files.push(file);
            assert(longer.drop_last() =~= files);
            assert(longer.subrange(0, n) =~= files);
            assert forall|i: int| 0 <= i < n implies #[trigger] longer.subrange(0, i)
                == files.subrange(0, i) by {
                assert(longer.subrange(0, i) =~= files.subrange(0, i));
            }
            let told = events.push(event);
            assert forall|i: int| 0 <= i < longer.len() implies #[trigger] told[i] == classified(
                left_after(previous, longer.subrange(0, i)),
                longer[i],
            ) by {
                if i < n {
                    assert(told[i] == events[i]);
                    assert(longer.subrange(0, i) == files.subrange(0, i));
                }
            }
        },
        ScanMove::End => {
            assert(events.subrange(n, events.len() as int).map_values(gone) + after.deleted->0
                =~= after.deleted->0);
        },
        ScanMove::Poll(now, step) => {
            if step is Event {
                let event = step->Event_0;
                without_progress_last(events_of(calls), event);
                if event is Deleted {
                    let told = events.push(event);
                    assert(told.subrange(n, told.len() as int).map_values(gone)
                        + after.deleted->0 =~= events.subrange(n, events.len() as int).map_values(
                        gone,
                    ) + before.deleted->0);
                }
            }
        },
    }
}

/// The events so far are a front part of a report, whatever the calls.
proof fn front_of_report(
    states: Seq<ScannerView>,
    calls: Seq<ScanMove>,
    previous: Map<Seq<char>, (u64, i64)>,
)
    requires
        states.len() == calls.len() + 1,
        states[0].previous == previous && states[0].deleted is None,
        forall|i: int|
            0 <= i < calls.len() ==> moved(states[i], #[trigger] calls[i], states[i + 1]),
    ensures
        is_front(
            states.last(),
            without_progress(events_of(calls)),
            previous,
            files_of(calls),
        ),
    decreases calls.len(),
{
    if calls.len() == 0 {
        reveal(Seq::filter);
    } else {
        let known = states.drop_last();
        let front = calls.drop_last();
        assert forall|i: int| 0 <= i < front.len() implies moved(
            known[i],
            #[trigger] front[i],
            known[i + 1],
        ) by {
            assert(front[i] == calls[i]);
        }
        front_of_report(known, front, previous);
        let last = calls[calls.len() - 1];
        assert(moved(known.last(), last, states.last()));
        front_grows(known.last(), last, states.last(), front, previous);
        assert(front.push(last) =~= calls);
    }
}

/// However a scan is driven, on whatever clock, once it has nothing left its events, reports of
/// progress aside, report the walked files against what the index had at its start.
pub proof fn scanner_reports_scan(
    states: Seq<ScannerView>,
    calls: Seq<ScanMove>,
    previous: Map<Seq<char>, (u64, i64)>,
)
    requires
        states.len() == calls.len() + 1,
        states[0].previous == previous && states[0].deleted is None,
        forall|i: int|
            0 <= i < calls.len() ==> moved(states[i], #[trigger] calls[i], states[i + 1]),
        states.last().deleted == Some(Seq::<Seq<char>>::empty()),
    ensures
        is_scan(without_progress(events_of(calls)), previous, files_of(calls)),
{
    front_of_report(states, calls, previous);
    let events = without_progress(events_of(calls));
    let n = files_of(calls).len() as int;
    let told = events.subrange(n, events.len() as int).map_values(
        |e: ScanEvent| e->Deleted_0@,
    );
    assert(told + Seq::<Seq<char>>::empty() =~= told);
}

/// Scans a working tree, given its files in the order in which they are walked, without reports
/// of progress. Returns the events in order, and their counts: first what each file is, then the
/// deleted paths in ascending order.
pub fn scan(index: &Index, files: &Vec<LocalFile>, now: u64) -> (r: (Vec<ScanEvent>, Changes))
    requires
        index.wf(),
        total_size(files@) <= u64::MAX,
    ensures
        is_scan(r.0@, stats_of(index@.files), files@),
        r.1 == counts(r.0@),
{
    let mut scanner = Scanner::new(index, now);
    let ghost previous = stats_of(index@.files);
    let total: usize = files.len();
    let ghost n = total as int;
    let mut events: Vec<ScanEvent> = Vec::new();
    let mut changes = Changes::default();
    let mut i: usize = 0;
    assert(files@.subrange(0, 0) =~= Seq::<LocalFile>::empty());
    while i < total
        invariant
            total == files@.len(),
            scanner.wf(),
            i <= files@.len(),
            n == files@.len(),
            n <= u64::MAX,
            total_size(files@) <= u64::MAX,
            previous == stats_of(index@.files),
            events@.len() == i,
            scanner@.previous == left_after(previous, files@.subrange(0, i as int)),
            scanner@.deleted is None,
            scanner@.stats.scanned == i,
            scanner@.stats.bytes == total_size(files@.subrange(0, i as int)),
            !scanner@.pending_progress,
            scanner@.last_progress == now,
            changes == counts(events@),
            changes.deleted == 0,
            forall|j: int|
                0 <= j < i ==> #[trigger] events@[j] == classified(
                    left_after(previous, files@.subrange(0, j)),
                    files@[j],
                ),
        decreases files@.len() - i,
    {
        proof {
            let next = files@.subrange(0, i + 1);
            assert(next.drop_last() =~= files@.subrange(0, i as int));
            total_size_of_front(files@, i + 1);
            counts_bounded(events@);
        }
        let ghost before = events@;
        let event = scanner.walked_file(files[i].clone(), now);
        changes.count(&event);
        events.push(event);
        assert(events@.drop_last() =~= before);
        i += 1;
    }
    assert(files@.subrange(0, i as int) =~= files@);
    scanner.walk_finished();
    let ghost rest = scanner@.deleted->0;
    let ghost names = |e: ScanEvent| e->Deleted_0@;
    let ghost mut told: int = 0;
    proof {
        assert(rest.subrange(0, rest.len() as int) =~= rest);
    }
    loop
        invariant
            scanner.wf(),
            n == files@.len(),
            0 <= told <= rest.len(),
            rest.len() <= u64::MAX,
            changes.deleted == told,
            events@.len() == n + told,
            scanner@.deleted == Some(rest.subrange(told, rest.len() as int)),
            !scanner@.pending_progress,
            changes == counts(events@),
            names == (|e: ScanEvent| e->Deleted_0@),
            forall|j: int|
                0 <= j < n ==> #[trigger] events@[j] == classified(
                    left_after(previous, files@.subrange(0, j)),
                    files@[j],
                ),
            forall|j: int|
                n <= j < events@.len() ==> (#[trigger] events@[j]) is Deleted
                    && events@[j]->Deleted_0@ == rest[j - n],
        ensures
            told == rest.len(),
        decreases rest.len() - told,
    {
        let ghost before = events@;
        match scanner.poll(now) {
            ScanStep::Event(event) => {
                proof {
                    assert(rest.subrange(told, rest.len() as int).drop_first() =~= rest.subrange(
                        told + 1,
                        rest.len() as int,
                    ));
                }
                changes.count(&event);
                events.push(event);
                proof {
                    assert(events@.drop_last() =~= before);
                    told = told + 1;
                }
            },
            _ => {
                break;
            },
        }
    }
    assert(events@.subrange(n, events@.len() as int).map_values(names) =~= rest);
    (events, changes)
}

/// The counts of a scan, without the paths.
pub fn scan_changes(index: &Index, files: &Vec<LocalFile>, now: u64) -> (r: Changes)
    requires
        index.wf(),
        total_size(files@) <= u64::MAX,
    ensures
        exists|events: Seq<ScanEvent>| #[trigger]
            is_scan(events, stats_of(index@.files), files@) && r == counts(events),
{
    let (events, changes) = scan(index, files, now);
    assert(is_scan(events@, stats_of(index@.files), files@));
    changes
}

/// The sizes of files together.
pub open spec fn total_size(files: Seq<LocalFile>) -> int
    decreases files.len(),
{
    if files.len() == 0 {
        0
    } else {
        total_size(files.drop_last()) + files.last().size
    }
}

/// A front part of some files is not larger than all of them.
proof fn total_size_of_front(files: Seq<LocalFile>, n: int)
    requires
        0 <= n <= files.len(),
    ensures
        0 <= total_size(files.subrange(0, n)) <= total_size(files),
    decreases files.len(),
{
    if n == files.len() {
        assert(files.subrange(0, n) =~= files);
        if n > 0 {
            total_size_of_front(files.drop_last(), n - 1);
        }
    } else {
        total_size_of_front(files.drop_last(), n);
        assert(files.drop_last().subrange(0, n) =~= files.subrange(0, n));
    }
}

/// What a poll of a scan gives: progress that is due before anything else, with what was counted
/// so far; else the walk while it lasts; else the deleted paths one by one from the first; and then
/// that nothing is left. Only what was told is taken away.
pub proof fn polls_tell_progress_first(
    view: ScannerView,
    now: u64,
    step: ScanStep,
    after: ScannerView,
)
    requires
        view.polls(now, step, after),
    ensures
        view.pending_progress <==> (step is Event && step->Event_0 is Progress),
        view.pending_progress ==> step->Event_0->Progress_0 == view.stats && after.last_progress
            == now,
        !view.pending_progress ==> after.last_progress == view.last_progress,
        !after.pending_progress,
        step is Walk <==> !view.pending_progress && view.deleted is None,
        step is Done <==> !view.pending_progress && view.deleted is Some && view.deleted->0.len()
            == 0,
        (step is Event && step->Event_0 is Deleted) ==> view.deleted is Some && view.deleted->0
            == seq![step->Event_0->Deleted_0@] + after.deleted->0,
        !(step is Event && step->Event_0 is Deleted) ==> after.deleted == view.deleted,
        step is Event ==> step->Event_0 is Progress || step->Event_0 is Deleted,
        after.previous == view.previous,
        after.stats == view.stats,
{
    if !view.pending_progress && view.deleted is Some && view.deleted->0.len() > 0 {
        assert(view.deleted->0 =~= seq![step->Event_0->Deleted_0@] + after.deleted->0);
    }
}

} // verus!
