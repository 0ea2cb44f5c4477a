use crate::pattern::{captures, count_groups, group, group_count, group_text, regex_captures};
use crate::text::{
    chars_of, decimal, labelled_number, lines, lines_of, matches_at, one_char, parse_u64,
    parse_within, rows, same_chars, slice_of, split, split_on, starts_with, string_of, trim,
    trimmed,
};
use vstd::prelude::*;

verus! {

pub struct DaySeven {}

/// A file with its size.
pub struct File {
    name: Vec<char>,
    size: u32,
}

/// What a listing has shown of a directory: the paths of its directories
/// and its files, as often as they were listed.
pub struct Directory {
    subdirs: Vec<Vec<Vec<char>>>,
    files: Vec<File>,
}

/// The directories that have been entered or listed, each with its path. A
/// path is the sequence of the names that lead to a directory from the
/// root.
pub struct Tree {
    paths: Vec<Vec<Vec<char>>>,
    dirs: Vec<Directory>,
}

/// A directory as it is known: its path, the paths of its directories, and
/// the sizes of its files.
pub struct Folder {
    pub path: Seq<Seq<char>>,
    pub subdirs: Seq<Seq<Seq<char>>>,
    pub files: Seq<u32>,
}

/// The names of a path.
pub open spec fn names(path: Vec<Vec<char>>) -> Seq<Seq<char>> {
    rows(path@)
}

/// The sizes of the files.
pub closed spec fn sizes_of(files: Seq<File>) -> Seq<u32> {
    Seq::new(files.len(), |i: int| files[i].size)
}

/// The paths, each as its names.
pub open spec fn all_names(paths: Seq<Vec<Vec<char>>>) -> Seq<Seq<Seq<char>>> {
    Seq::new(paths.len(), |i: int| names(paths[i]))
}

impl Tree {
    /// The directories of the tree, in the order in which they became known.
    pub closed spec fn folders(self) -> Seq<Folder> {
        Seq::new(
            self.dirs@.len(),
            |i: int|
                Folder {
                    path: names(self.paths@[i]),
                    subdirs: all_names(self.dirs@[i].subdirs@),
                    files: sizes_of(self.dirs@[i].files@),
                },
        )
    }

    /// Every directory has its path.
    pub closed spec fn wf(self) -> bool {
        self.paths@.len() == self.dirs@.len()
    }
}

/// The place of the first directory with that path; `None` where there is
/// none.
pub open spec fn place_of(fs: Seq<Folder>, path: Seq<Seq<char>>) -> Option<int>
    decreases fs.len(),
{
    if fs.len() == 0 {
        None
    } else if fs[0].path == path {
        Some(0)
    } else {
        match place_of(fs.skip(1), path) {
            Some(k) => Some(k + 1),
            None => None,
        }
    }
}

/// The sum of the first `k` sizes.
pub open spec fn files_total(files: Seq<u32>, k: int) -> int
    decreases k,
{
    if k <= 0 {
        0
    } else {
        files_total(files, k - 1) + files[k - 1]
    }
}

/// The size of the directory with that path: the sizes of its directories
/// and files added up, directories nested no deeper than `depth`. `None`
/// where a directory is not known, the nesting goes deeper, or the size does
/// not fit in 32 bits.
pub open spec fn size_of(fs: Seq<Folder>, path: Seq<Seq<char>>, depth: nat) -> Option<int>
    decreases depth, 0nat, 0nat,
{
    if depth == 0 {
        None
    } else {
        match place_of(fs, path) {
            None => None,
            Some(k) => match subdirs_total(fs, fs[k].subdirs, (depth - 1) as nat, fs[k].subdirs.len()) {
                None => None,
                Some(inner) => {
                    let total = inner + files_total(fs[k].files, fs[k].files.len() as int);
                    if total <= u32::MAX {
                        Some(total)
                    } else {
                        None
                    }
                },
            },
        }
    }
}

/// The sizes of the first `k` of the directories added up.
pub open spec fn subdirs_total(fs: Seq<Folder>, subs: Seq<Seq<Seq<char>>>, depth: nat, k: nat) -> Option<
    int,
>
    decreases depth, 1nat, k,
{
    if k == 0 {
        Some(0)
    } else if k > subs.len() {
        None
    } else {
        match (subdirs_total(fs, subs, depth, (k - 1) as nat), size_of(fs, subs[k - 1], depth)) {
            (Some(total), Some(size)) => if total + size <= u32::MAX {
                Some(total + size)
            } else {
                None
            },
            _ => None,
        }
    }
}

/// The names that `text` holds between slashes; empty names and single dots
/// do not count.
pub open spec fn names_in(pieces: Seq<Seq<char>>) -> Seq<Seq<char>>
    decreases pieces.len(),
{
    if pieces.len() == 0 {
        Seq::empty()
    } else if pieces.last().len() == 0 || pieces.last() == seq!['.'] {
        names_in(pieces.drop_last())
    } else {
        names_in(pieces.drop_last()).push(pieces.last())
    }
}

/// The path that `relative` leads to from `current`: its names are added to
/// those of `current`, or stand alone where it begins with a slash.
pub open spec fn joined(current: Seq<Seq<char>>, relative: Seq<char>) -> Seq<Seq<char>> {
    let added = names_in(split(relative, seq!['/']));
    if relative.len() > 0 && relative[0] == '/' {
        added
    } else {
        current + added
    }
}

/// Where a change of directory leads: to the root for a slash, one up for
/// two dots, and else to the path joined. `None` for one up from the
/// root.
pub open spec fn changed(current: Seq<Seq<char>>, relative: Seq<char>) -> Option<Seq<Seq<char>>> {
    if relative == seq!['/'] {
        Some(Seq::empty())
    } else if relative == seq!['.', '.'] {
        if current.len() == 0 {
            None
        } else {
            Some(current.drop_last())
        }
    } else {
        Some(joined(current, relative))
    }
}

/// The directories with the one at `path` among them.
pub open spec fn known(fs: Seq<Folder>, path: Seq<Seq<char>>) -> Seq<Folder> {
    if place_of(fs, path) is Some {
        fs
    } else {
        fs.push(Folder { path, subdirs: Seq::empty(), files: Seq::empty() })
    }
}

/// The regular expression of a file in a listing: its size and its name.
pub open spec fn file_pattern() -> Seq<char> {
    r"^(?P<size>[0-9]+)\s(?P<name>[a-z.]+)\s*$"@
}

/// The size that the line of a file writes, white space around the line
/// aside.
pub open spec fn file_size_in(line: Seq<char>) -> Option<int> {
    let groups = regex_captures(file_pattern(), trimmed(line));
    if group_count(groups) == 3 && group_text(groups, 2) is Some {
        match group_text(groups, 1) {
            Some(digits) => parse_within(digits, false, 0, u32::MAX as int),
            None => None,
        }
    } else {
        None
    }
}

/// The directories and the current path after a line of the log: a change
/// of directory makes the new directory known; a listing command changes
/// nothing; a directory listed is added to the current directory and made
/// known; a file listed is added to the current directory. `None` where the
/// line cannot be read or the current directory is not known.
pub open spec fn after_line(fs: Seq<Folder>, current: Seq<Seq<char>>, line: Seq<char>) -> Option<
    (Seq<Folder>, Seq<Seq<char>>),
> {
    if starts_with(line, "$ cd"@) {
        match changed(current, trimmed(line.skip(4))) {
            None => None,
            Some(path) => Some((known(fs, path), path)),
        }
    } else if starts_with(line, "$ ls"@) {
        Some((fs, current))
    } else if starts_with(line, "dir"@) {
        if line.len() >= 4 && line[3] as u32 <= 0x7f {
            let path = joined(current, line.skip(4));
            match place_of(fs, current) {
                None => None,
                Some(k) => Some(
                    (
                        known(
                            fs.update(k, Folder { subdirs: fs[k].subdirs.push(path), ..fs[k] }),
                            path,
                        ),
                        current,
                    ),
                ),
            }
        } else {
            None
        }
    } else {
        match (place_of(fs, current), file_size_in(line)) {
            (Some(k), Some(size)) => Some(
                (fs.update(k, Folder { files: fs[k].files.push(size as u32), ..fs[k] }), current),
            ),
            _ => None,
        }
    }
}

/// The directories and the current path after the first `k` lines of a
/// log, the root being current at the outset and nothing known.
pub open spec fn after_lines(ls: Seq<Seq<char>>, k: int) -> Option<(Seq<Folder>, Seq<Seq<char>>)>
    decreases k,
{
    if k <= 0 {
        Some((Seq::empty(), Seq::empty()))
    } else if k > ls.len() {
        None
    } else {
        match after_lines(ls, k - 1) {
            None => None,
            Some((fs, current)) => after_line(fs, current, ls[k - 1]),
        }
    }
}

/// The directories that the log makes known.
pub open spec fn folders_of(input: Seq<char>) -> Option<Seq<Folder>> {
    match after_lines(lines(input), lines(input).len() as int) {
        Some((fs, _)) => Some(fs),
        None => None,
    }
}

/// The sizes of the first `k` directories.
pub open spec fn sizes(fs: Seq<Folder>, k: int) -> Option<Seq<u32>>
    decreases k,
{
    if k <= 0 {
        Some(Seq::empty())
    } else if k > fs.len() {
        None
    } else {
        match (sizes(fs, k - 1), size_of(fs, fs[k - 1].path, fs.len())) {
            (Some(s), Some(x)) => Some(s.push(x as u32)),
            _ => None,
        }
    }
}

/// The sum of the first `k` sizes that are below a hundred thousand;
/// `None` where it does not fit in 32 bits.
pub open spec fn small_total(s: Seq<u32>, k: int) -> Option<int>
    decreases k,
{
    if k <= 0 {
        Some(0)
    } else {
        match small_total(s, k - 1) {
            None => None,
            Some(total) => if s[k - 1] < 100000 {
                if total + s[k - 1] <= u32::MAX {
                    Some(total + s[k - 1])
                } else {
                    None
                }
            } else {
                Some(total)
            },
        }
    }
}

/// The first answer for `input`; `None` where it cannot be worked out.
pub open spec fn first_answer(input: Seq<char>) -> Option<int> {
    match folders_of(input) {
        None => None,
        Some(fs) => match sizes(fs, fs.len() as int) {
            None => None,
            Some(s) => small_total(s, s.len() as int),
        },
    }
}

/// `x` is the least of the sizes that are greater than `bound`.
pub open spec fn is_least_above(s: Seq<u32>, bound: int, x: int) -> bool {
    &&& x > bound
    &&& exists|i: int| 0 <= i < s.len() && #[trigger] s[i] == x
    &&& forall|i: int| 0 <= i < s.len() && #[trigger] s[i] > bound ==> s[i] >= x
}

/// What is to be freed: the size of the root less forty millions; `None`
/// where the root is not known or is smaller than that.
pub open spec fn to_free(fs: Seq<Folder>, s: Seq<u32>) -> Option<int> {
    match place_of(fs, Seq::empty()) {
        Some(k) => if s[k] >= 40000000 {
            Some(s[k] - 40000000)
        } else {
            None
        },
        None => None,
    }
}

/// Where the first `k` directories do not have the path and the next has
/// it, the place of the path is `k`.
proof fn lemma_place_first(fs: Seq<Folder>, path: Seq<Seq<char>>, k: int)
    requires
        0 <= k <= fs.len(),
        forall|i: int| 0 <= i < k ==> (#[trigger] fs[i]).path != path,
        k < fs.len() ==> fs[k].path == path,
    ensures
        place_of(fs, path) == (if k < fs.len() {
            Some(k)
        } else {
            None
        }),
    decreases k,
{
    if k > 0 {
        assert(fs[0].path != path);
        assert forall|i: int| 0 <= i < k - 1 implies (#[trigger] fs.skip(1)[i]).path != path by {
            assert(fs.skip(1)[i] == fs[i + 1]);
        }
        if k < fs.len() {
            assert(fs.skip(1)[k - 1] == fs[k]);
        }
        lemma_place_first(fs.skip(1), path, k - 1);
    }
}

/// The place found is a place of the sequence.
proof fn lemma_place_bounds(fs: Seq<Folder>, path: Seq<Seq<char>>)
    ensures
        place_of(fs, path) matches Some(k) ==> 0 <= k < fs.len() && fs[k].path == path,
    decreases fs.len(),
{
    if fs.len() > 0 && fs[0].path != path {
        lemma_place_bounds(fs.skip(1), path);
        if place_of(fs.skip(1), path) is Some {
            assert(fs.skip(1)[place_of(fs.skip(1), path)->0] == fs[place_of(fs, path)->0]);
        }
    }
}

/// Whether the two paths have the same names.
fn same_path(a: &Vec<Vec<char>>, b: &Vec<Vec<char>>) -> (r: bool)
    ensures
        r == (names(*a) == names(*b)),
{
    if a.len() != b.len() {
        return false;
    }
    let mut i: usize = 0;
    while i < a.len()
        invariant
            i <= a.len(),
            a.len() == b.len(),
            forall|k: int| 0 <= k < i ==> names(*a)[k] == names(*b)[k],
        decreases a.len() - i,
    {
        if !same_chars(&a[i], &b[i]) {
            assert(names(*a)[i as int] != names(*b)[i as int]);
            return false;
        }
        i += 1;
    }
    assert(names(*a) =~= names(*b));
    true
}

/// The path as a vector of its own.
fn copy_path(path: &Vec<Vec<char>>) -> (r: Vec<Vec<char>>)
    ensures
        names(r) == names(*path),
{
    let mut r: Vec<Vec<char>> = Vec::new();
    let mut i: usize = 0;
    while i < path.len()
        invariant
            i <= path.len(),
            r.len() == i,
            forall|k: int| 0 <= k < i ==> (#[trigger] r@[k])@ == path@[k]@,
        decreases path.len() - i,
    {
        let name = slice_of(&path[i], 0, path[i].len());
        assert(name@ =~= path@[i as int]@);
        r.push(name);
        i += 1;
    }
    assert(names(r) =~= names(*path));
    r
}

/// The path that `relative` leads to from `current`.
fn join(current: &Vec<Vec<char>>, relative: &Vec<char>) -> (r: Vec<Vec<char>>)
    ensures
        names(r) == joined(names(*current), relative@),
{
    let pieces = split_on(relative, &one_char('/'));
    let ghost all = split(relative@, seq!['/']);
    let mut r: Vec<Vec<char>> = if relative.len() > 0 && relative[0] == '/' {
        Vec::new()
    } else {
        copy_path(current)
    };
    let ghost base = names(r);
    let mut i: usize = 0;
    assert(all.take(0) =~= Seq::<Seq<char>>::empty());
    assert(names(r) =~= base + names_in(all.take(0)));
    while i < pieces.len()
        invariant
            i <= pieces.len(),
            all == rows(pieces@),
            names(r) == base + names_in(all.take(i as int)),
        decreases pieces.len() - i,
    {
        let piece = &pieces[i];
        proof {
            assert(all[i as int] == piece@);
            assert(all.take(i + 1).drop_last() =~= all.take(i as int));
            assert(all.take(i + 1).last() == piece@);
        }
        let is_dot = piece.len() == 1 && piece[0] == '.';
        assert(is_dot == (piece@ == seq!['.'])) by {
            if is_dot {
                assert(piece@ =~= seq!['.']);
            }
            if piece@ == seq!['.'] {
                assert(piece@.len() == 1 && piece@[0] == '.');
            }
        }
        if piece.len() != 0 && !is_dot {
            let ghost before = names(r);
            let name = slice_of(piece, 0, piece.len());
            assert(name@ =~= piece@);
            r.push(name);
            assert(names(r) =~= before.push(piece@));
            assert(names(r) =~= base + names_in(all.take(i + 1)));
        }
        i += 1;
    }
    assert(all.take(i as int) =~= all);
    r
}

impl Tree {
    /// The place of the directory with that path.
    fn find(&self, path: &Vec<Vec<char>>) -> (r: Option<usize>)
        requires
            self.wf(),
        ensures
            match r {
                Some(k) => place_of(self.folders(), names(*path)) == Some(k as int) && k
                    < self.dirs@.len(),
                None => place_of(self.folders(), names(*path)) is None,
            },
    {
        let ghost fs = self.folders();
        let mut k: usize = 0;
        while k < self.paths.len()
            invariant
                k <= self.paths.len(),
                self.wf(),
                fs == self.folders(),
                forall|i: int| 0 <= i < k ==> (#[trigger] fs[i]).path != names(*path),
            decreases self.paths.len() - k,
        {
            assert(fs[k as int].path == names(self.paths@[k as int]));
            if same_path(&self.paths[k], path) {
                proof {
                    lemma_place_first(fs, names(*path), k as int);
                }
                return Some(k);
            }
            k += 1;
        }
        proof {
            lemma_place_first(fs, names(*path), k as int);
        }
        None
    }

    /// Makes the directory with that path known.
    fn ensure(&mut self, path: &Vec<Vec<char>>)
        requires
            old(self).wf(),
        ensures
            final(self).wf(),
            final(self).folders() == known(old(self).folders(), names(*path)),
    {
        if self.find(path).is_none() {
            let ghost before = self.folders();
            self.paths.push(copy_path(path));
            self.dirs.push(Directory { subdirs: Vec::new(), files: Vec::new() });
            proof {
                let added = Folder { path: names(*path), subdirs: Seq::empty(), files: Seq::empty() };
                assert(self.folders()[before.len() as int].subdirs =~= Seq::<Seq<Seq<char>>>::empty());
                assert(self.folders()[before.len() as int].files =~= Seq::<u32>::empty());
                assert(self.folders() =~= before.push(added));
            }
        }
    }
}

/// Follows a change of directory and makes the new directory known;
/// `None` for one up from the root.
fn change_dir(dirs: &mut Tree, current_path: &Vec<Vec<char>>, relative_path: &Vec<char>) -> (r: Option<
    Vec<Vec<char>>,
>)
    requires
        old(dirs).wf(),
    ensures
        final(dirs).wf(),
        match r {
            Some(path) => changed(names(*current_path), relative_path@) == Some(names(path))
                && final(dirs).folders() == known(old(dirs).folders(), names(path)),
            None => changed(names(*current_path), relative_path@) is None && final(dirs).folders()
                == old(dirs).folders(),
        },
{
    let is_root = relative_path.len() == 1 && relative_path[0] == '/';
    let is_up = relative_path.len() == 2 && relative_path[0] == '.' && relative_path[1] == '.';
    proof {
        if is_root {
            assert(relative_path@ =~= seq!['/']);
        }
        if relative_path@ == seq!['/'] {
            assert(relative_path@.len() == 1 && relative_path@[0] == '/');
        }
        if is_up {
            assert(relative_path@ =~= seq!['.', '.']);
        }
        if relative_path@ == seq!['.', '.'] {
            assert(relative_path@.len() == 2 && relative_path@[0] == '.' && relative_path@[1] == '.');
        }
    }
    let path: Vec<Vec<char>> = if is_root {
        let p: Vec<Vec<char>> = Vec::new();
        assert(names(p) =~= Seq::<Seq<char>>::empty());
        p
    } else if is_up {
        if current_path.len() == 0 {
            return None;
        }
        let mut p = copy_path(current_path);
        p.pop();
        assert(names(p) =~= names(*current_path).drop_last());
        p
    } else {
        join(current_path, relative_path)
    };
    dirs.ensure(&path);
    Some(path)
}

/// The size that the line of a file writes.
fn read_file_size(file: &Vec<char>) -> (r: Option<u32>)
    ensures
        match r {
            Some(size) => file_size_in(file@) == Some(size as int),
            None => file_size_in(file@) is None,
        },
{
    let groups = captures(r"^(?P<size>[0-9]+)\s(?P<name>[a-z.]+)\s*$", string_of(&trim(file)).as_str());
    if count_groups(&groups) != 3 {
        return None;
    }
    if group(&groups, 2).is_none() {
        return None;
    }
    match group(&groups, 1) {
        None => None,
        Some(digits) => match parse_u64(&digits) {
            None => None,
            Some(x) => if x <= 0xffff_ffff {
                Some(x as u32)
            } else {
                None
            },
        },
    }
}

/// Adds a file to the directory at `dir_path`. Returns whether the line
/// could be read and the directory is known.
fn add_file(dirs: &mut Tree, dir_path: &Vec<Vec<char>>, file: &Vec<char>) -> (done: bool)
    requires
        old(dirs).wf(),
    ensures
        final(dirs).wf(),
        done == (place_of(old(dirs).folders(), names(*dir_path)) is Some && file_size_in(file@)
            is Some),
        done ==> {
            let fs = old(dirs).folders();
            let k = place_of(fs, names(*dir_path))->0;
            final(dirs).folders() == fs.update(
                k,
                Folder { files: fs[k].files.push(file_size_in(file@)->0 as u32), ..fs[k] },
            )
        },
{
    let k = match dirs.find(dir_path) {
        None => {
            return false;
        },
        Some(k) => k,
    };
    let size = match read_file_size(file) {
        None => {
            return false;
        },
        Some(s) => s,
    };
    let ghost fs = dirs.folders();
    let ghost before = dirs.dirs@[k as int].files@;
    dirs.dirs[k].files.push(File { name: Vec::new(), size });
    proof {
        assert(sizes_of(dirs.dirs@[k as int].files@) =~= sizes_of(before).push(size));
        assert(dirs.folders() =~= fs.update(
            k as int,
            Folder { files: fs[k as int].files.push(size), ..fs[k as int] },
        ));
    }
    true
}

/// Adds a directory to the one at `dir_path` and makes it known. Returns
/// whether the directory at `dir_path` is known.
fn add_subdir(dirs: &mut Tree, dir_path: &Vec<Vec<char>>, subdir: &Vec<char>) -> (done: bool)
    requires
        old(dirs).wf(),
    ensures
        final(dirs).wf(),
        done == place_of(old(dirs).folders(), names(*dir_path)) is Some,
        done ==> {
            let fs = old(dirs).folders();
            let k = place_of(fs, names(*dir_path))->0;
            let path = joined(names(*dir_path), subdir@);
            final(dirs).folders() == known(
                fs.update(k, Folder { subdirs: fs[k].subdirs.push(path), ..fs[k] }),
                path,
            )
        },
{
    let subdir_filepath = join(dir_path, subdir);
    let k = match dirs.find(dir_path) {
        None => {
            return false;
        },
        Some(k) => k,
    };
    let ghost fs = dirs.folders();
    let ghost before = dirs.dirs@[k as int].subdirs@;
    dirs.dirs[k].subdirs.push(copy_path(&subdir_filepath));
    proof {
        assert(all_names(dirs.dirs@[k as int].subdirs@) =~= all_names(before).push(
            names(subdir_filepath),
        ));
        assert(dirs.folders() =~= fs.update(
            k as int,
            Folder {
                subdirs: fs[k as int].subdirs.push(names(subdir_filepath)),
                ..fs[k as int]
            },
        ));
    }
    dirs.ensure(&subdir_filepath);
    true
}

/// The size of the directory with that path, directories nested no deeper
/// than `depth`.
fn get_size_dir(dirs: &Tree, dirpath: &Vec<Vec<char>>, depth: usize) -> (r: Option<u32>)
    requires
        dirs.wf(),
    ensures
        match r {
            Some(size) => size_of(dirs.folders(), names(*dirpath), depth as nat) == Some(
                size as int,
            ),
            None => size_of(dirs.folders(), names(*dirpath), depth as nat) is None,
        },
    decreases depth,
{
    if depth == 0 {
        return None;
    }
    let k = match dirs.find(dirpath) {
        None => {
            return None;
        },
        Some(k) => k,
    };
    let dir = &dirs.dirs[k];
    let ghost fs = dirs.folders();
    let ghost folder = fs[k as int];
    let mut size: u32 = 0;
    let mut i: usize = 0;
    while i < dir.subdirs.len()
        invariant
            i <= dir.subdirs.len(),
            dirs.wf(),
            depth > 0,
            fs == dirs.folders(),
            0 <= k < fs.len(),
            place_of(fs, names(*dirpath)) == Some(k as int),
            folder == fs[k as int],
            folder.subdirs == all_names(dir.subdirs@),
            subdirs_total(fs, folder.subdirs, (depth - 1) as nat, i as nat) == Some(size as int),
        decreases dir.subdirs.len() - i,
    {
        assert(folder.subdirs[i as int] == names(dir.subdirs@[i as int]));
        match get_size_dir(dirs, &dir.subdirs[i], depth - 1) {
            None => {
                proof {
                    assert(subdirs_total(fs, folder.subdirs, (depth - 1) as nat, (i + 1) as nat)
                        is None);
                    lemma_subdirs_fail(fs, folder.subdirs, (depth - 1) as nat, (i + 1) as nat);
                }
                return None;
            },
            Some(inner) => {
                if inner > u32::MAX - size {
                    proof {
                        assert(subdirs_total(
                            fs,
                            folder.subdirs,
                            (depth - 1) as nat,
                            (i + 1) as nat,
                        ) is None);
                        lemma_subdirs_fail(fs, folder.subdirs, (depth - 1) as nat, (i + 1) as nat);
                    }
                    return None;
                }
                size += inner;
            },
        }
        i += 1;
    }
    let ghost inner_total = size as int;
    let mut total: u64 = size as u64;
    let mut j: usize = 0;
    while j < dir.files.len()
        invariant
            j <= dir.files.len(),
            depth > 0,
            fs == dirs.folders(),
            0 <= k < fs.len(),
            place_of(fs, names(*dirpath)) == Some(k as int),
            folder == fs[k as int],
            folder.files == sizes_of(dir.files@),
            subdirs_total(fs, folder.subdirs, (depth - 1) as nat, folder.subdirs.len()) == Some(
                inner_total,
            ),
            total == inner_total + files_total(folder.files, j as int),
            0 <= inner_total <= u32::MAX,
            total <= 0xffff_ffff + 0xffff_ffff,
        decreases dir.files.len() - j,
    {
        assert(folder.files[j as int] == dir.files@[j as int].size);
        if total > 0xffff_ffff {
            proof {
                lemma_files_grow(folder.files, j as int, folder.files.len() as int);
            }
            return None;
        }
        total = total + dir.files[j].size as u64;
        j += 1;
    }
    if total > 0xffff_ffff {
        return None;
    }
    assert(folder.files.len() == dir.files@.len());
    Some(total as u32)
}

/// The sum of more sizes is not less.
proof fn lemma_files_grow(files: Seq<u32>, j: int, k: int)
    requires
        0 <= j <= k,
    ensures
        files_total(files, j) <= files_total(files, k),
    decreases k - j,
{
    if j < k {
        lemma_files_grow(files, j, k - 1);
    }
}

/// Once the sizes cannot be added up to a directory, they cannot be added up
/// at all.
proof fn lemma_subdirs_fail(fs: Seq<Folder>, subs: Seq<Seq<Seq<char>>>, depth: nat, k: nat)
    requires
        1 <= k <= subs.len(),
        subdirs_total(fs, subs, depth, k) is None,
    ensures
        subdirs_total(fs, subs, depth, subs.len()) is None,
    decreases subs.len() - k,
{
    if k < subs.len() {
        lemma_subdirs_fail(fs, subs, depth, k + 1);
    }
}

/// The sizes of all directories, in the order in which they became known.
fn get_sizes(dirs: &Tree) -> (r: Option<Vec<u32>>)
    requires
        dirs.wf(),
    ensures
        match r {
            Some(s) => sizes(dirs.folders(), dirs.folders().len() as int) == Some(s@),
            None => sizes(dirs.folders(), dirs.folders().len() as int) is None,
        },
{
    let ghost fs = dirs.folders();
    let n = dirs.paths.len();
    let mut found: Vec<u32> = Vec::new();
    let mut i: usize = 0;
    while i < n
        invariant
            i <= n,
            dirs.wf(),
            fs == dirs.folders(),
            n == fs.len(),
            sizes(fs, i as int) == Some(found@),
        decreases n - i,
    {
        assert(fs[i as int].path == names(dirs.paths@[i as int]));
        match get_size_dir(dirs, &dirs.paths[i], n) {
            None => {
                proof {
                    lemma_sizes_fail(fs, i + 1);
                }
                return None;
            },
            Some(size) => {
                found.push(size);
            },
        }
        i += 1;
    }
    Some(found)
}

/// Once the sizes cannot be worked out up to a directory, they cannot be
/// worked out at all.
proof fn lemma_sizes_fail(fs: Seq<Folder>, k: int)
    requires
        1 <= k <= fs.len(),
        sizes(fs, k) is None,
    ensures
        sizes(fs, fs.len() as int) is None,
    decreases fs.len() - k,
{
    if k < fs.len() {
        lemma_sizes_fail(fs, k + 1);
    }
}

/// Once the log cannot be read up to a line, it cannot be read at all.
proof fn lemma_lines_fail(ls: Seq<Seq<char>>, k: int)
    requires
        1 <= k <= ls.len(),
        after_lines(ls, k) is None,
    ensures
        after_lines(ls, ls.len() as int) is None,
    decreases ls.len() - k,
{
    if k < ls.len() {
        lemma_lines_fail(ls, k + 1);
    }
}

/// Reads the log and makes the tree of the directories that it shows;
/// `None` where the log cannot be read.
fn parse(input: &str) -> (r: Option<Tree>)
    ensures
        match r {
            Some(tree) => tree.wf() && folders_of(input@) == Some(tree.folders()),
            None => folders_of(input@) is None,
        },
{
    let text = chars_of(input);
    let ls = lines_of(&text);
    let ghost all = lines(input@);
    let mut dirs = Tree { paths: Vec::new(), dirs: Vec::new() };
    let mut current_filepath: Vec<Vec<char>> = Vec::new();
    let cd = chars_of("$ cd");
    let list = chars_of("$ ls");
    let dir = chars_of("dir");
    let mut i: usize = 0;
    proof {
        assert(dirs.folders() =~= Seq::<Folder>::empty());
        assert(names(current_filepath) =~= Seq::<Seq<char>>::empty());
    }
    while i < ls.len()
        invariant
            i <= ls.len(),
            all == rows(ls@),
            all == lines(input@),
            dirs.wf(),
            cd@ == "$ cd"@,
            list@ == "$ ls"@,
            dir@ == "dir"@,
            after_lines(all, i as int) == Some((dirs.folders(), names(current_filepath))),
        decreases ls.len() - i,
    {
        let output = &ls[i];
        proof {
            assert(all[i as int] == output@);
            assert(output@.skip(0) =~= output@);
        }
        if matches_at(output, 0, &cd) {
            proof {
                reveal_strlit("$ cd");
            }
            let rest = trim(&slice_of(output, 4, output.len()));
            assert(output@.subrange(4, output@.len() as int) =~= output@.skip(4));
            match change_dir(&mut dirs, &current_filepath, &rest) {
                None => {
                    proof {
                        lemma_lines_fail(all, i + 1);
                    }
                    return None;
                },
                Some(path) => {
                    current_filepath = path;
                },
            }
        } else if matches_at(output, 0, &list) {
        } else {
            if matches_at(output, 0, &dir) {
                if output.len() < 4 || output[3] as u32 > 0x7f {
                    proof {
                        lemma_lines_fail(all, i + 1);
                    }
                    return None;
                }
                let rest = slice_of(output, 4, output.len());
                assert(output@.subrange(4, output@.len() as int) =~= output@.skip(4));
                if !add_subdir(&mut dirs, &current_filepath, &rest) {
                    proof {
                        lemma_lines_fail(all, i + 1);
                    }
                    return None;
                }
            } else {
                if !add_file(&mut dirs, &current_filepath, output) {
                    proof {
                        lemma_lines_fail(all, i + 1);
                    }
                    return None;
                }
            }
        }
        i += 1;
    }
    Some(dirs)
}

/// The second answer for `input`: the least size that is greater than what
/// is to be freed; `None` where it cannot be worked out.
pub open spec fn is_second_answer(input: Seq<char>, x: int) -> bool {
    match folders_of(input) {
        None => false,
        Some(fs) => match sizes(fs, fs.len() as int) {
            None => false,
            Some(s) => match to_free(fs, s) {
                None => false,
                Some(bound) => is_least_above(s, bound, x),
            },
        },
    }
}

/// Works out the first answer.
fn work_out_first(input: &str) -> (r: Option<u32>)
    ensures
        match r {
            Some(n) => first_answer(input@) == Some(n as int),
            None => first_answer(input@) is None,
        },
{
    let tree = match parse(input) {
        None => {
            return None;
        },
        Some(t) => t,
    };
    let found = match get_sizes(&tree) {
        None => {
            return None;
        },
        Some(s) => s,
    };
    let mut total: u32 = 0;
    let mut i: usize = 0;
    assert(first_answer(input@) == small_total(found@, found@.len() as int));
    while i < found.len()
        invariant
            i <= found.len(),
            first_answer(input@) == small_total(found@, found@.len() as int),
            small_total(found@, i as int) == Some(total as int),
        decreases found.len() - i,
    {
        if found[i] < 100000 {
            if found[i] > u32::MAX - total {
                proof {
                    assert(small_total(found@, i + 1) is None);
                    lemma_small_fails(found@, i + 1);
                }
                return None;
            }
            total += found[i];
        }
        i += 1;
    }
    Some(total)
}

/// Once the sum cannot be worked out up to a size, it cannot be worked out
/// at all.
proof fn lemma_small_fails(s: Seq<u32>, k: int)
    requires
        1 <= k <= s.len(),
        small_total(s, k) is None,
    ensures
        small_total(s, s.len() as int) is None,
    decreases s.len() - k,
{
    if k < s.len() {
        lemma_small_fails(s, k + 1);
    }
}

/// Works out the second answer.
fn work_out_second(input: &str) -> (r: Option<u32>)
    ensures
        match r {
            Some(n) => is_second_answer(input@, n as int),
            None => forall|x: int| !is_second_answer(input@, x),
        },
{
    let tree = match parse(input) {
        None => {
            return None;
        },
        Some(t) => t,
    };
    let found = match get_sizes(&tree) {
        None => {
            return None;
        },
        Some(s) => s,
    };
    let root: Vec<Vec<char>> = Vec::new();
    assert(names(root) =~= Seq::<Seq<char>>::empty());
    let k = match tree.find(&root) {
        None => {
            return None;
        },
        Some(k) => k,
    };
    proof {
        lemma_sizes_len(tree.folders(), tree.folders().len() as int);
    }
    let total = found[k];
    if total < 40000000 {
        return None;
    }
    let space_to_free = total - 40000000;
    let mut best: Option<u32> = None;
    let ghost mut at: int = 0;
    let mut i: usize = 0;
    while i < found.len()
        invariant
            i <= found.len(),
            best matches Some(x) ==> x > space_to_free && 0 <= at < i && found@[at] == x,
            forall|j: int|
                0 <= j < i && #[trigger] found@[j] > space_to_free ==> best is Some && found@[j]
                    >= best->0,
        decreases found.len() - i,
    {
        let value = found[i];
        if value > space_to_free {
            let better = match best {
                None => true,
                Some(x) => value < x,
            };
            if better {
                best = Some(value);
                proof {
                    at = i as int;
                }
            }
        }
        i += 1;
    }
    match best {
        None => {
            assert forall|x: int| !is_second_answer(input@, x) by {
                if is_second_answer(input@, x) {
                    let j = choose|j: int| 0 <= j < found@.len() && #[trigger] found@[j] == x;
                    assert(found@[j] > space_to_free);
                }
            }
            None
        },
        Some(x) => {
            assert(found@[at] == x);
            Some(x)
        },
    }
}

/// As many sizes are worked out as there are directories.
proof fn lemma_sizes_len(fs: Seq<Folder>, k: int)
    requires
        0 <= k <= fs.len(),
    ensures
        sizes(fs, k) matches Some(s) ==> s.len() == k,
    decreases k,
{
    if k > 0 {
        lemma_sizes_len(fs, k - 1);
    }
}

impl DaySeven {
    /// Both answers; `None` where one of them cannot be worked out.
    pub fn solve(&self, input: &str) -> (r: Option<(String, String)>)
        ensures
            r matches Some(answers) ==> first_answer(input@) is Some && answers.0@
                == "Sum of sizes below 100000: "@ + decimal(first_answer(input@)->0 as nat)
                && exists|x: int|
                x >= 0 && #[trigger] is_second_answer(input@, x) && answers.1@
                    == "Size to be deleted: "@ + decimal(x as nat),
            r is None ==> first_answer(input@) is None || forall|x: int|
                !is_second_answer(input@, x),
    {
        if work_out_first(input).is_some() && work_out_second(input).is_some() {
            Some((self.part_one(input), self.part_two(input)))
        } else {
            None
        }
    }

    /// Reports the sum of the sizes of the directories that are smaller than
    /// a hundred thousand.
    pub fn part_one(&self, input: &str) -> (out: String)
        requires
            first_answer(input@) is Some,
        ensures
            out@ == "Sum of sizes below 100000: "@ + decimal(first_answer(input@)->0 as nat),
    {
        let total = work_out_first(input).unwrap();
        labelled_number("Sum of sizes below 100000: ", total as u64)
    }

    /// Reports the size of the smallest directory whose removal leaves the
    /// root no greater than forty millions.
    pub fn part_two(&self, input: &str) -> (out: String)
        requires
            exists|x: int| is_second_answer(input@, x),
        ensures
            exists|x: int|
                x >= 0 && #[trigger] is_second_answer(input@, x) && out@ == "Size to be deleted: "@
                    + decimal(x as nat),
    {
        let value = work_out_second(input).unwrap();
        let out = labelled_number("Size to be deleted: ", value as u64);
        assert(is_second_answer(input@, value as int));
        out
    }
}

} // verus!
