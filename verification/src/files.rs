//! A picture of the files that a scan may read.
use vstd::prelude::*;
use crate::lines::{byte_lines, byte_lines_of, bytes_between, decode, decoded};
use crate::order::Kinded;
use crate::path::{extension, file_name, parent, relative_to, SourcePath};

verus! {

/// What stands under a path.
#[derive(Clone, Copy)]
pub enum FileKind {
    File,
    Directory,
    /// A link to a file.
    LinkedFile,
    /// A link to a directory.
    LinkedDirectory,
}

/// One path of the picture.
pub struct FileEntry {
    pub path: SourcePath,
    pub kind: FileKind,
    /// The path with all links resolved.
    pub canonical: SourcePath,
    /// Whether the file changed since the scan before.
    pub fresh: bool,
    /// The bytes of a file that can be read.
    pub content: Option<Vec<u8>>,
}

#[verifier::ext_equal]
pub struct EntryView {
    pub path: Seq<Seq<char>>,
    pub kind: FileKind,
    pub canonical: Seq<Seq<char>>,
    pub fresh: bool,
    pub content: Option<Seq<u8>>,
}

impl DeepView for FileEntry {
    type V = EntryView;

    open spec fn deep_view(&self) -> EntryView {
        EntryView {
            path: self.path.deep_view(),
            kind: self.kind,
            canonical: self.canonical.deep_view(),
            fresh: self.fresh,
            content: match self.content {
                Some(bytes) => Some(bytes@),
                None => None,
            },
        }
    }
}

/// The paths that a scan can see, in the order in which a walk finds them. What
/// lies under a linked directory is listed only where that is itself the start
/// of a walk.
pub struct FileTable {
    pub entries: Vec<FileEntry>,
}

impl DeepView for FileTable {
    type V = Seq<EntryView>;

    open spec fn deep_view(&self) -> Seq<EntryView> {
        self.entries.deep_view()
    }
}

/// What the table says of a path.
pub open spec fn entry_at(t: Seq<EntryView>, p: Seq<Seq<char>>) -> Option<EntryView>
    decreases t.len(),
{
    if t.len() == 0 {
        None
    } else if t[0].path == p {
        Some(t[0])
    } else {
        entry_at(t.skip(1), p)
    }
}

pub open spec fn path_exists(t: Seq<EntryView>, p: Seq<Seq<char>>) -> bool {
    entry_at(t, p) is Some
}

/// Whether a file stands under the path, links followed.
pub open spec fn path_is_file(t: Seq<EntryView>, p: Seq<Seq<char>>) -> bool {
    match entry_at(t, p) {
        Some(e) => e.kind is File || e.kind is LinkedFile,
        None => false,
    }
}

/// Whether a directory stands under the path, links followed.
pub open spec fn path_is_dir(t: Seq<EntryView>, p: Seq<Seq<char>>) -> bool {
    match entry_at(t, p) {
        Some(e) => e.kind is Directory || e.kind is LinkedDirectory,
        None => false,
    }
}

pub open spec fn path_is_fresh(t: Seq<EntryView>, p: Seq<Seq<char>>) -> bool {
    match entry_at(t, p) {
        Some(e) => e.fresh,
        None => false,
    }
}

/// The path with all links resolved, or as it is where nothing stands there.
pub open spec fn canonical_path(t: Seq<EntryView>, p: Seq<Seq<char>>) -> Seq<Seq<char>> {
    match entry_at(t, p) {
        Some(e) => e.canonical,
        None => p,
    }
}

/// The bytes under a path, where they can be read.
pub open spec fn bytes_at(t: Seq<EntryView>, p: Seq<Seq<char>>) -> Option<Seq<u8>> {
    match entry_at(t, p) {
        Some(e) => e.content,
        None => None,
    }
}

/// The text under a path, where it can be read and is UTF-8.
pub open spec fn text_at(t: Seq<EntryView>, p: Seq<Seq<char>>) -> Option<Seq<char>> {
    match bytes_at(t, p) {
        Some(bytes) => decoded(bytes),
        None => None,
    }
}

/// The lines under a path, each where it is UTF-8.
pub open spec fn lines_at(t: Seq<EntryView>, p: Seq<Seq<char>>) -> Option<Seq<Option<Seq<char>>>> {
    match bytes_at(t, p) {
        Some(bytes) => Some(byte_lines(bytes)),
        None => None,
    }
}

/// Whether a walk from `root` finds a plain file, at least `low` steps down and, if
/// there is a limit, no more than `high`.
pub open spec fn is_walked(e: EntryView, root: Seq<Seq<char>>, low: int, high: Option<int>) -> bool {
    &&& e.kind is File
    &&& relative_to(e.path, root) is Some
    &&& low <= e.path.len() - root.len()
    &&& high matches Some(h) ==> e.path.len() - root.len() <= h
}

/// The limit of a walk.
pub open spec fn limit(high: Option<usize>) -> Option<int> {
    match high {
        Some(h) => Some(h as int),
        None => None,
    }
}

/// The plain files that a walk from `root` finds.
pub open spec fn walked_files(t: Seq<EntryView>, root: Seq<Seq<char>>, low: int, high: Option<int>) -> Seq<
    Seq<Seq<char>>,
>
    decreases t.len(),
{
    if t.len() == 0 {
        Seq::empty()
    } else {
        let front = walked_files(t.drop_last(), root, low, high);
        if is_walked(t.last(), root, low, high) {
            front.push(t.last().path)
        } else {
            front
        }
    }
}

/// What a directory lists.
pub open spec fn children(t: Seq<EntryView>, directory: Seq<Seq<char>>) -> Seq<Seq<Seq<char>>>
    decreases t.len(),
{
    if t.len() == 0 {
        Seq::empty()
    } else {
        let front = children(t.drop_last(), directory);
        if parent(t.last().path) == Some(directory) {
            front.push(t.last().path)
        } else {
            front
        }
    }
}

/// Whether the table has a plain file of that path for a walk to find.
pub open spec fn can_walk_to(t: Seq<EntryView>, root: Seq<Seq<char>>, low: int, high: Option<int>, p: Seq<Seq<char>>) -> bool {
    exists|k: int| 0 <= k < t.len() && is_walked(#[trigger] t[k], root, low, high) && t[k].path == p
}

/// A walk finds the plain files of the table below its root, and nothing else.
pub proof fn walk_is_sound_and_complete(t: Seq<EntryView>, root: Seq<Seq<char>>, low: int, high: Option<int>)
    ensures
        forall|p: Seq<Seq<char>>| #[trigger]
            walked_files(t, root, low, high).contains(p) <==> can_walk_to(t, root, low, high, p),
    decreases t.len(),
{
    let all = walked_files(t, root, low, high);
    if t.len() > 0 {
        let front = t.drop_last();
        let inner = walked_files(front, root, low, high);
        walk_is_sound_and_complete(front, root, low, high);
        assert forall|p: Seq<Seq<char>>| #[trigger] all.contains(p) <==> can_walk_to(t, root, low, high, p) by {
            if all.contains(p) {
                let i = choose|i: int| 0 <= i < all.len() && all[i] == p;
                if i < inner.len() {
                    assert(inner[i] == p);
                    assert(inner.contains(p));
                    let k = choose|k: int|
                        0 <= k < front.len() && is_walked(#[trigger] front[k], root, low, high) && front[k].path == p;
                    assert(is_walked(t[k], root, low, high) && t[k].path == p);
                } else {
                    assert(is_walked(t[t.len() - 1], root, low, high) && t[t.len() - 1].path == p);
                }
            }
            if can_walk_to(t, root, low, high, p) {
                let k = choose|k: int|
                    0 <= k < t.len() && is_walked(#[trigger] t[k], root, low, high) && t[k].path == p;
                if k < front.len() {
                    assert(is_walked(front[k], root, low, high) && front[k].path == p);
                    assert(inner.contains(p));
                    let i = choose|i: int| 0 <= i < inner.len() && inner[i] == p;
                    assert(all[i] == p);
                } else {
                    assert(all[all.len() - 1] == p);
                }
            }
        }
    }
}

impl FileTable {
    fn find(&self, path: &SourcePath) -> (r: Option<&FileEntry>)
        ensures
            r.deep_view() == entry_at(self.deep_view(), path.deep_view()),
    {
        let ghost t = self.deep_view();
        let ghost p = path.deep_view();
        let mut i: usize = 0;
        assert(t.skip(0) =~= t);
        while i < self.entries.len()
            invariant
                i <= self.entries@.len(),
                t == self.deep_view(),
                p == path.deep_view(),
                entry_at(t, p) == entry_at(t.skip(i as int), p),
            decreases self.entries.len() - i,
        {
            assert(t.skip(i as int)[0] == self.entries@[i as int].deep_view());
            if self.entries[i].path.is_like(path) {
                return Some(&self.entries[i]);
            }
            assert(t.skip(i as int).skip(1) =~= t.skip(i + 1));
            i = i + 1;
        }
        None
    }

    pub fn has(&self, path: &SourcePath) -> (r: bool)
        ensures
            r == path_exists(self.deep_view(), path.deep_view()),
    {
        self.find(path).is_some()
    }

    pub fn is_file(&self, path: &SourcePath) -> (r: bool)
        ensures
            r == path_is_file(self.deep_view(), path.deep_view()),
    {
        match self.find(path) {
            Some(e) => match e.kind {
                FileKind::File => true,
                FileKind::LinkedFile => true,
                _ => false,
            },
            None => false,
        }
    }

    pub fn is_dir(&self, path: &SourcePath) -> (r: bool)
        ensures
            r == path_is_dir(self.deep_view(), path.deep_view()),
    {
        match self.find(path) {
            Some(e) => match e.kind {
                FileKind::Directory => true,
                FileKind::LinkedDirectory => true,
                _ => false,
            },
            None => false,
        }
    }

    /// Whether a file changed since the scan before.
    pub fn is_fresh(&self, path: &SourcePath) -> (r: bool)
        ensures
            r == path_is_fresh(self.deep_view(), path.deep_view()),
    {
        match self.find(path) {
            Some(e) => e.fresh,
            None => false,
        }
    }

    /// The path with all links resolved.
    pub fn canonical(&self, path: &SourcePath) -> (r: SourcePath)
        ensures
            r.deep_view() == canonical_path(self.deep_view(), path.deep_view()),
    {
        match self.find(path) {
            Some(e) => e.canonical.copy(),
            None => path.copy(),
        }
    }

    /// The text of a file.
    pub fn read_text(&self, path: &SourcePath) -> (r: Option<String>)
        ensures
            r.deep_view() == text_at(self.deep_view(), path.deep_view()),
    {
        match self.find(path) {
            Some(e) => match &e.content {
                Some(bytes) => {
                    let copy = bytes_between(bytes, 0, bytes.len());
                    assert(copy@ =~= bytes@);
                    decode(copy)
                },
                None => None,
            },
            None => None,
        }
    }

    /// The lines of a file.
    pub fn read_lines(&self, path: &SourcePath) -> (r: Option<Vec<Option<String>>>)
        ensures
            r.deep_view() == lines_at(self.deep_view(), path.deep_view()),
    {
        match self.find(path) {
            Some(e) => match &e.content {
                Some(bytes) => Some(byte_lines_of(bytes)),
                None => None,
            },
            None => None,
        }
    }

    /// The plain files that a walk finds, at least `low` and at most `high` steps
    /// down.
    pub fn walk(&self, root: &SourcePath, low: usize, high: Option<usize>) -> (r: Vec<SourcePath>)
        ensures
            r.deep_view() == walked_files(self.deep_view(), root.deep_view(), low as int, limit(high)),
    {
        let ghost t = self.deep_view();
        let mut out: Vec<SourcePath> = Vec::new();
        let mut i: usize = 0;
        assert(t.take(0) =~= Seq::empty());
        assert(out.deep_view() =~= walked_files(t.take(0), root.deep_view(), low as int, limit(high)));
        while i < self.entries.len()
            invariant
                i <= self.entries@.len(),
                t == self.deep_view(),
                out.deep_view() == walked_files(t.take(i as int), root.deep_view(), low as int, limit(high)),
            decreases self.entries.len() - i,
        {
            let entry = &self.entries[i];
            let ghost before = out.deep_view();
            proof {
                assert(t.take(i + 1).drop_last() =~= t.take(i as int));
                assert(t.take(i + 1).last() == entry.deep_view());
            }
            let plain = match entry.kind {
                FileKind::File => true,
                _ => false,
            };
            if plain && entry.path.relative_to(root).is_some() {
                let depth = entry.path.parts.len() - root.parts.len();
                let shallow = match high {
                    Some(h) => depth <= h,
                    None => true,
                };
                if low <= depth && shallow {
                    out.push(entry.path.copy());
                    assert(out.deep_view() =~= before.push(entry.path.deep_view()));
                }
            }
            i = i + 1;
        }
        assert(t.take(t.len() as int) =~= t);
        out
    }

    /// What a directory lists.
    pub fn list(&self, directory: &SourcePath) -> (r: Vec<SourcePath>)
        ensures
            r.deep_view() == children(self.deep_view(), directory.deep_view()),
    {
        let ghost t = self.deep_view();
        let mut out: Vec<SourcePath> = Vec::new();
        let mut i: usize = 0;
        assert(t.take(0) =~= Seq::empty());
        assert(out.deep_view() =~= children(t.take(0), directory.deep_view()));
        while i < self.entries.len()
            invariant
                i <= self.entries@.len(),
                t == self.deep_view(),
                out.deep_view() == children(t.take(i as int), directory.deep_view()),
            decreases self.entries.len() - i,
        {
            let entry = &self.entries[i];
            let ghost before = out.deep_view();
            proof {
                assert(t.take(i + 1).drop_last() =~= t.take(i as int));
                assert(t.take(i + 1).last() == entry.deep_view());
            }
            let inside = match entry.path.parent() {
                Some(above) => above.is_like(directory),
                None => false,
            };
            if inside {
                out.push(entry.path.copy());
                assert(out.deep_view() =~= before.push(entry.path.deep_view()));
            }
            i = i + 1;
        }
        assert(t.take(t.len() as int) =~= t);
        out
    }
}

/// The paths of that file name.
pub open spec fn only_named(paths: Seq<Seq<Seq<char>>>, name: Seq<char>) -> Seq<Seq<Seq<char>>> {
    paths.filter(|p: Seq<Seq<char>>| file_name(p) == Some(name))
}

/// The paths of that extension.
pub open spec fn only_extension(paths: Seq<Seq<Seq<char>>>, wanted: Seq<char>) -> Seq<Seq<Seq<char>>> {
    paths.filter(|p: Seq<Seq<char>>| extension(p) == Some(wanted))
}

/// The paths where something stands.
pub open spec fn only_existing(t: Seq<EntryView>, paths: Seq<Seq<Seq<char>>>) -> Seq<Seq<Seq<char>>> {
    paths.filter(|p: Seq<Seq<char>>| path_exists(t, p))
}

pub fn keep_named(paths: Vec<SourcePath>, name: &str) -> (r: Vec<SourcePath>)
    ensures
        r.deep_view() == only_named(paths.deep_view(), name@),
{
    reveal(Seq::filter);
    let ghost all = paths.deep_view();
    let mut out: Vec<SourcePath> = Vec::new();
    assert(all.take(0) =~= Seq::empty());
    assert(out.deep_view() =~= only_named(all.take(0), name@));
    for p in it: paths
        invariant
            it.seq() == paths@,
            all == paths.deep_view(),
            out.deep_view() == only_named(all.take(it.index() as int), name@),
    {
        reveal(Seq::filter);
        let ghost n = it.index() as int;
        let ghost before = out.deep_view();
        assert(all.take(n + 1).drop_last() =~= all.take(n));
        assert(all.take(n + 1).last() == p.deep_view());
        if p.is_named(name) {
            out.push(p);
            assert(out.deep_view() =~= before.push(p.deep_view()));
        }
    }
    assert(all.take(all.len() as int) =~= all);
    out
}

pub fn keep_extension(paths: Vec<SourcePath>, wanted: &str) -> (r: Vec<SourcePath>)
    ensures
        r.deep_view() == only_extension(paths.deep_view(), wanted@),
{
    reveal(Seq::filter);
    let ghost all = paths.deep_view();
    let mut out: Vec<SourcePath> = Vec::new();
    assert(all.take(0) =~= Seq::empty());
    assert(out.deep_view() =~= only_extension(all.take(0), wanted@));
    for p in it: paths
        invariant
            it.seq() == paths@,
            all == paths.deep_view(),
            out.deep_view() == only_extension(all.take(it.index() as int), wanted@),
    {
        reveal(Seq::filter);
        let ghost n = it.index() as int;
        let ghost before = out.deep_view();
        assert(all.take(n + 1).drop_last() =~= all.take(n));
        assert(all.take(n + 1).last() == p.deep_view());
        if p.has_extension(wanted) {
            out.push(p);
            assert(out.deep_view() =~= before.push(p.deep_view()));
        }
    }
    assert(all.take(all.len() as int) =~= all);
    out
}

impl FileTable {
    /// The paths where something stands.
    pub fn keep_existing(&self, paths: Vec<SourcePath>) -> (r: Vec<SourcePath>)
        ensures
            r.deep_view() == only_existing(self.deep_view(), paths.deep_view()),
    {
        reveal(Seq::filter);
        let ghost all = paths.deep_view();
        let mut out: Vec<SourcePath> = Vec::new();
        assert(all.take(0) =~= Seq::empty());
        assert(out.deep_view() =~= only_existing(self.deep_view(), all.take(0)));
        for p in it: paths
            invariant
                it.seq() == paths@,
                all == paths.deep_view(),
                out.deep_view() == only_existing(self.deep_view(), all.take(it.index() as int)),
        {
            reveal(Seq::filter);
            let ghost n = it.index() as int;
            let ghost before = out.deep_view();
            assert(all.take(n + 1).drop_last() =~= all.take(n));
            assert(all.take(n + 1).last() == p.deep_view());
            if self.has(&p) {
                out.push(p);
                assert(out.deep_view() =~= before.push(p.deep_view()));
            }
        }
        assert(all.take(all.len() as int) =~= all);
        out
    }
}

/// The first of these that is a directory.
pub open spec fn first_directory(t: Seq<EntryView>, paths: Seq<Seq<Seq<char>>>) -> Option<Seq<Seq<char>>>
    decreases paths.len(),
{
    if paths.len() == 0 {
        None
    } else if path_is_dir(t, paths[0]) {
        Some(paths[0])
    } else {
        first_directory(t, paths.skip(1))
    }
}

/// The first of these that is a directory.
pub fn find_directory(files: &FileTable, paths: &Vec<SourcePath>) -> (r: Option<SourcePath>)
    ensures
        r.deep_view() == first_directory(files.deep_view(), paths.deep_view()),
{
    let ghost t = files.deep_view();
    let ghost all = paths.deep_view();
    let mut i: usize = 0;
    assert(all.skip(0) =~= all);
    while i < paths.len()
        invariant
            i <= paths@.len(),
            t == files.deep_view(),
            all == paths.deep_view(),
            first_directory(t, all) == first_directory(t, all.skip(i as int)),
        decreases paths.len() - i,
    {
        assert(all.skip(i as int)[0] == paths@[i as int].deep_view());
        if files.is_dir(&paths[i]) {
            return Some(paths[i].copy());
        }
        assert(all.skip(i as int).skip(1) =~= all.skip(i + 1));
        i = i + 1;
    }
    None
}

/// What is kept of paths is what was there and is wanted.
pub proof fn filtering_keeps(paths: Seq<Seq<Seq<char>>>, keep: spec_fn(Seq<Seq<char>>) -> bool, p: Seq<Seq<char>>)
    ensures
        paths.filter(keep).contains(p) <==> paths.contains(p) && keep(p),
    decreases paths.len(),
{
    reveal(Seq::filter);
    if paths.len() > 0 {
        let front = paths.drop_last();
        let last = paths.last();
        filtering_keeps(front, keep, p);
        if paths.contains(p) {
            let k = choose|k: int| 0 <= k < paths.len() && paths[k] == p;
            if k < front.len() {
                assert(front[k] == p);
            }
        }
        if front.contains(p) {
            let k = choose|k: int| 0 <= k < front.len() && front[k] == p;
            assert(paths[k] == p);
        }
        assert(paths[paths.len() - 1] == last);
        let kept = front.filter(keep);
        if keep(last) {
            let more = kept.push(last);
            assert(more[kept.len() as int] == last);
            if kept.contains(p) {
                let k = choose|k: int| 0 <= k < kept.len() && kept[k] == p;
                assert(more[k] == p);
            }
            if more.contains(p) && p != last {
                let k = choose|k: int| 0 <= k < more.len() && more[k] == p;
                assert(kept[k] == p);
            }
        }
    }
}

/// Of paths, those of a file name are kept, and no others.
pub proof fn named_files_are_kept(paths: Seq<Seq<Seq<char>>>, name: Seq<char>, p: Seq<Seq<char>>)
    ensures
        only_named(paths, name).contains(p) <==> paths.contains(p) && file_name(p) == Some(name),
{
    filtering_keeps(paths, |p: Seq<Seq<char>>| file_name(p) == Some(name), p);
}

/// Of paths, those of an extension are kept, and no others.
pub proof fn files_of_an_extension_are_kept(paths: Seq<Seq<Seq<char>>>, wanted: Seq<char>, p: Seq<Seq<char>>)
    ensures
        only_extension(paths, wanted).contains(p) <==> paths.contains(p) && extension(p) == Some(wanted),
{
    filtering_keeps(paths, |p: Seq<Seq<char>>| extension(p) == Some(wanted), p);
}

/// Of paths, those where something stands are kept, and no others.
pub proof fn paths_that_exist_are_kept(t: Seq<EntryView>, paths: Seq<Seq<Seq<char>>>, p: Seq<Seq<char>>)
    ensures
        only_existing(t, paths).contains(p) <==> paths.contains(p) && path_exists(t, p),
{
    filtering_keeps(paths, |p: Seq<Seq<char>>| path_exists(t, p), p);
}

/// What the table says of a path is what its first entry of that path says: whether
/// something stands there and of what kind, whether it changed, where it leads and what it
/// holds. Of a path without an entry it says nothing.
pub proof fn entries_are_found_by_path(t: Seq<EntryView>, p: Seq<Seq<char>>, n: int)
    requires
        0 <= n <= t.len(),
        forall|i: int| 0 <= i < n ==> (#[trigger] t[i]).path != p,
        n < t.len() ==> t[n].path == p,
    ensures
        n < t.len() ==> {
            let e = t[n];
            &&& path_exists(t, p)
            &&& path_is_file(t, p) <==> e.kind is File || e.kind is LinkedFile
            &&& path_is_dir(t, p) <==> e.kind is Directory || e.kind is LinkedDirectory
            &&& path_is_fresh(t, p) == e.fresh
            &&& canonical_path(t, p) == e.canonical
            &&& bytes_at(t, p) == e.content
            &&& e.content matches Some(bytes) ==> (vstd::utf8::valid_utf8(bytes) ==> text_at(t, p) == Some(
                vstd::utf8::decode_utf8(bytes),
            )) && (!vstd::utf8::valid_utf8(bytes) ==> text_at(t, p) is None) && lines_at(t, p) == Some(byte_lines(bytes))
            &&& e.content is None ==> text_at(t, p) is None && lines_at(t, p) is None
        },
        n == t.len() ==> {
            &&& !path_exists(t, p)
            &&& !path_is_file(t, p)
            &&& !path_is_dir(t, p)
            &&& !path_is_fresh(t, p)
            &&& canonical_path(t, p) == p
            &&& text_at(t, p) is None
            &&& lines_at(t, p) is None
        },
    decreases n,
{
    if n > 0 {
        let rest = t.skip(1);
        assert(t[0].path != p);
        assert forall|i: int| 0 <= i < n - 1 implies (#[trigger] rest[i]).path != p by {
            assert(t[i + 1].path != p);
        }
        entries_are_found_by_path(rest, p, n - 1);
    }
}

/// A walk finds a plain file that stands so many steps below its root, where that is within
/// its limits; it follows no links and finds no directories.
pub proof fn plain_files_below_are_walked_to(
    t: Seq<EntryView>,
    root: Seq<Seq<char>>,
    steps: Seq<Seq<char>>,
    low: int,
    high: Option<int>,
    k: int,
)
    requires
        0 <= k < t.len(),
        t[k].path == root + steps,
        t[k].kind is File,
        low <= steps.len(),
        high matches Some(h) ==> steps.len() <= h,
    ensures
        walked_files(t, root, low, high).contains(root + steps),
{
    walk_is_sound_and_complete(t, root, low, high);
    assert(t[k].path.take(root.len() as int) =~= root);
    assert(is_walked(t[k], root, low, high));
    assert(can_walk_to(t, root, low, high, root + steps));
}

/// Whatever a walk finds is a plain file below its root, within its limits.
pub proof fn walks_find_plain_files_below(
    t: Seq<EntryView>,
    root: Seq<Seq<char>>,
    low: int,
    high: Option<int>,
    p: Seq<Seq<char>>,
)
    requires
        walked_files(t, root, low, high).contains(p),
    ensures
        exists|k: int| 0 <= k < t.len() && (#[trigger] t[k]).path == p && t[k].kind is File,
        root.len() <= p.len(),
        p.take(root.len() as int) == root,
        low <= p.len() - root.len(),
        high matches Some(h) ==> p.len() - root.len() <= h,
{
    walk_is_sound_and_complete(t, root, low, high);
    assert(can_walk_to(t, root, low, high, p));
    let k = choose|k: int| 0 <= k < t.len() && is_walked(#[trigger] t[k], root, low, high) && t[k].path == p;
    assert(t[k].path == p && t[k].kind is File);
}

/// The first of given places that is a directory is taken, whatever stands behind it.
pub proof fn first_directories_are_taken(t: Seq<EntryView>, paths: Seq<Seq<Seq<char>>>, n: int)
    requires
        0 <= n <= paths.len(),
        forall|i: int| 0 <= i < n ==> !path_is_dir(t, #[trigger] paths[i]),
        n < paths.len() ==> path_is_dir(t, paths[n]),
    ensures
        n < paths.len() ==> first_directory(t, paths) == Some(paths[n]),
        n == paths.len() ==> first_directory(t, paths) is None,
    decreases n,
{
    if n > 0 {
        let rest = paths.skip(1);
        assert(!path_is_dir(t, paths[0]));
        assert forall|i: int| 0 <= i < n - 1 implies !path_is_dir(t, #[trigger] rest[i]) by {
            assert(!path_is_dir(t, paths[i + 1]));
        }
        first_directories_are_taken(t, rest, n - 1);
    }
}

/// A directory lists what stands right in it, whatever that is, and nothing else.
pub proof fn directories_list_what_stands_in_them(t: Seq<EntryView>, directory: Seq<Seq<char>>, p: Seq<Seq<char>>)
    ensures
        children(t, directory).contains(p) <==> parent(p) == Some(directory) && exists|k: int|
            0 <= k < t.len() && (#[trigger] t[k]).path == p,
    decreases t.len(),
{
    if t.len() > 0 {
        let front = t.drop_last();
        let last = t.last();
        let listed = children(front, directory);
        directories_list_what_stands_in_them(front, directory, p);
        assert(t[t.len() - 1] == last);
        if exists|k: int| 0 <= k < front.len() && (#[trigger] front[k]).path == p {
            let k = choose|k: int| 0 <= k < front.len() && (#[trigger] front[k]).path == p;
            assert(t[k].path == p);
        }
        if exists|k: int| 0 <= k < t.len() && (#[trigger] t[k]).path == p {
            let k = choose|k: int| 0 <= k < t.len() && (#[trigger] t[k]).path == p;
            if k < front.len() {
                assert(front[k].path == p);
            }
        }
        let more = listed.push(last.path);
        if listed.contains(p) {
            let k = choose|k: int| 0 <= k < listed.len() && listed[k] == p;
            assert(more[k] == p);
        }
        assert(more[listed.len() as int] == last.path);
        if more.contains(p) && p != last.path {
            let k = choose|k: int| 0 <= k < more.len() && more[k] == p;
            assert(listed[k] == p);
        }
    }
}

} // verus!
