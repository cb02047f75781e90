//! The library as a DLNA media server shows it: a tree of directories and files whose ids stay the
//! same while their paths do, and what browsing and searching it gives.
use vstd::prelude::*;
use vstd::string::*;

use crate::http::{content_type_for, media_type};
use crate::media::Container;
use crate::paths::{
    components,
    components_of,
    is_name,
    names_stand_in_their_directory,
    starts_with,
    within,
};
use crate::remote::pairing::hex_is_lowercase;
use crate::remote::random::{first_16, random_bytes};
use crate::scan::{contents, label_of, Scan, Scanned, ScannedFile};
use crate::text::{
    contains_text,
    dec,
    dec_text,
    hex,
    hex2,
    hex_digit,
    hex_text,
    lower,
    lower_text,
    occurs,
    occurs_between,
    opt_borrow,
    opt_str_view,
    owned,
    pair_views,
    same,
    views,
};

verus! {

/// A directory of the tree.
#[derive(Debug)]
pub struct DirNode {
    pub id: String,
    pub parent_id: String,
    pub name: String,
    /// The names that lead to it from the root.
    pub rel: Vec<String>,
    /// Positions in the tree's directories.
    pub child_dirs: Vec<usize>,
    /// Positions in the tree's files.
    pub child_files: Vec<usize>,
}

/// A file of the tree; its position is that among the scan's playable files.
#[derive(Debug)]
pub struct FileNode {
    pub id: String,
    pub parent_id: String,
    /// The components of its path.
    pub key: Vec<String>,
}

/// The directories and files of a library, each with an id. The counters say which ids come next.
#[derive(Debug)]
pub struct LibraryTree {
    pub dirs: Vec<DirNode>,
    pub files: Vec<FileNode>,
    pub next_dir_id: u128,
    pub next_file_id: u128,
}

/// A directory of the tree.
pub struct Dir {
    pub id: Seq<char>,
    pub parent_id: Seq<char>,
    pub name: Seq<char>,
    pub rel: Seq<Seq<char>>,
    pub child_dirs: Seq<int>,
    pub child_files: Seq<int>,
}

/// A file of the tree.
pub struct Leaf {
    pub id: Seq<char>,
    pub parent_id: Seq<char>,
    pub key: Seq<Seq<char>>,
}

/// The directories and files of a library.
pub struct Tree {
    pub dirs: Seq<Dir>,
    pub files: Seq<Leaf>,
    pub next_dir: nat,
    pub next_file: nat,
}

/// Positions as numbers.
pub open spec fn positions(v: Seq<usize>) -> Seq<int> {
    Seq::new(v.len(), |i: int| v[i] as int)
}

impl DirNode {
    /// The directory.
    pub open spec fn content(self) -> Dir {
        Dir {
            id: self.id@,
            parent_id: self.parent_id@,
            name: self.name@,
            rel: views(self.rel@),
            child_dirs: positions(self.child_dirs@),
            child_files: positions(self.child_files@),
        }
    }
}

impl FileNode {
    /// The file.
    pub open spec fn content(self) -> Leaf {
        Leaf { id: self.id@, parent_id: self.parent_id@, key: views(self.key@) }
    }
}

/// The directories.
pub open spec fn dirs_view(d: Seq<DirNode>) -> Seq<Dir> {
    Seq::new(d.len(), |i: int| d[i].content())
}

/// The files.
pub open spec fn files_view(f: Seq<FileNode>) -> Seq<Leaf> {
    Seq::new(f.len(), |i: int| f[i].content())
}

impl LibraryTree {
    /// The directories and files.
    pub open spec fn content(self) -> Tree {
        Tree {
            dirs: dirs_view(self.dirs@),
            files: files_view(self.files@),
            next_dir: self.next_dir_id as nat,
            next_file: self.next_file_id as nat,
        }
    }
}

/// The id of the `n`-th directory that ever was.
pub open spec fn dir_id(n: nat) -> Seq<char> {
    seq!['d'] + dec(n)
}

/// The id of the `n`-th file that ever was.
pub open spec fn file_id(n: nat) -> Seq<char> {
    seq!['f'] + dec(n)
}

fn numbered(letter: char, n: u128) -> (r: String)
    ensures
        r@ == seq![letter] + dec(n as nat),
{
    let mut out = String::new();
    out.push(letter);
    out.append(dec_text(n).as_str());
    assert(out@ =~= seq![letter] + dec(n as nat));
    out
}

/// The names among components, without the steps up.
pub open spec fn without_ups(c: Seq<Seq<char>>) -> Seq<Seq<char>>
    decreases c.len(),
{
    if c.len() == 0 {
        Seq::empty()
    } else if c.last() == ".."@ {
        without_ups(c.drop_last())
    } else {
        without_ups(c.drop_last()).push(c.last())
    }
}

/// The names of the directories that lead from the root to a file. A file outside the root counts
/// as lying in the root itself.
pub open spec fn dir_names(path: Seq<char>, root: Seq<char>) -> Seq<Seq<char>> {
    let c = components(path);
    let n = components(root).len() as int;
    if within(path, root) && c.len() > n {
        without_ups(c.subrange(n, c.len() - 1))
    } else {
        Seq::empty()
    }
}

fn dir_names_of(path: &str, root: &str) -> (r: Vec<String>)
    ensures
        views(r@) == dir_names(path@, root@),
{
    let inside = starts_with(path, root);
    let c = components_of(path);
    let n: usize = components_of(root).len();
    let ghost all = components(path@);
    assert(n == components(root@).len()) by {
        assert(components(root@).len() == n);
    }
    assert(all.len() == c@.len());
    let mut out: Vec<String> = Vec::new();
    if !inside || c.len() <= n {
        assert(views(out@) =~= Seq::<Seq<char>>::empty());
        return out;
    }
    let last: usize = c.len() - 1;
    let ghost middle = all.subrange(n as int, last as int);
    let mut i: usize = n;
    assert(middle.take(0) =~= Seq::<Seq<char>>::empty());
    assert(views(out@) =~= Seq::<Seq<char>>::empty());
    while i < last
        invariant
            n <= i <= last,
            last < c@.len(),
            views(c@) == all,
            middle == all.subrange(n as int, last as int),
            views(out@) == without_ups(middle.take(i - n)),
        decreases last - i,
    {
        let ghost known = views(out@);
        proof {
            assert(middle.take(i - n + 1).drop_last() =~= middle.take(i - n));
            assert(middle.take(i - n + 1).last() == all[i as int]);
            assert(all[i as int] == c@[i as int]@);
        }
        if !same(c[i].as_str(), "..") {
            out.push(c[i].clone());
            assert(views(out@) =~= known.push(c@[i as int]@));
        }
        i += 1;
    }
    assert(middle.take(i - n) =~= middle);
    out
}

/// The position of the directory that `rel` leads to, or -1.
pub open spec fn find_dir(dirs: Seq<Dir>, rel: Seq<Seq<char>>) -> int
    decreases dirs.len(),
{
    if dirs.len() == 0 {
        -1
    } else if dirs.last().rel == rel {
        dirs.len() - 1
    } else {
        find_dir(dirs.drop_last(), rel)
    }
}

/// The position of the last file whose path has the components `key`, or -1.
pub open spec fn find_leaf(files: Seq<Leaf>, key: Seq<Seq<char>>) -> int
    decreases files.len(),
{
    if files.len() == 0 {
        -1
    } else if files.last().key == key {
        files.len() - 1
    } else {
        find_leaf(files.drop_last(), key)
    }
}

/// The id that a directory had before.
pub open spec fn kept_dir(prev: Option<Tree>, rel: Seq<Seq<char>>) -> Option<Seq<char>> {
    match prev {
        Some(p) => if find_dir(p.dirs, rel) >= 0 {
            Some(p.dirs[find_dir(p.dirs, rel)].id)
        } else {
            None
        },
        None => None,
    }
}

/// The id that a file had before.
pub open spec fn kept_file(prev: Option<Tree>, key: Seq<Seq<char>>) -> Option<Seq<char>> {
    match prev {
        Some(p) => if find_leaf(p.files, key) >= 0 {
            Some(p.files[find_leaf(p.files, key)].id)
        } else {
            None
        },
        None => None,
    }
}

/// The tree with a new directory below the directory at `parent`. It keeps the id that it had
/// before, if it had one.
pub open spec fn with_dir(t: Tree, prev: Option<Tree>, rel: Seq<Seq<char>>, parent: int) -> Tree {
    let n = t.dirs.len() as int;
    let (id, next) = match kept_dir(prev, rel) {
        Some(kept) => (kept, t.next_dir),
        None => (dir_id(t.next_dir), t.next_dir + 1),
    };
    let above = t.dirs[parent];
    Tree {
        dirs: t.dirs.update(parent, Dir { child_dirs: above.child_dirs.push(n), ..above }).push(
            Dir {
                id,
                parent_id: above.id,
                name: rel.last(),
                rel,
                child_dirs: Seq::empty(),
                child_files: Seq::empty(),
            },
        ),
        next_dir: next,
        ..t
    }
}

/// The tree with the directories that `names` from the `k`-th on lead to below `parent`, and the
/// position of the last of them.
pub open spec fn descended(
    t: Tree,
    prev: Option<Tree>,
    names: Seq<Seq<char>>,
    k: int,
    parent: int,
) -> (Tree, int)
    decreases names.len() - k,
{
    if k < 0 || k >= names.len() {
        (t, parent)
    } else {
        let rel = names.take(k + 1);
        let at = find_dir(t.dirs, rel);
        if at >= 0 {
            descended(t, prev, names, k + 1, at)
        } else {
            descended(with_dir(t, prev, rel, parent), prev, names, k + 1, t.dirs.len() as int)
        }
    }
}

/// The tree with one more file in its directory. It keeps the id that it had before, if it had one.
pub open spec fn with_leaf(t: Tree, prev: Option<Tree>, path: Seq<char>, root: Seq<char>) -> Tree {
    let (u, parent) = descended(t, prev, dir_names(path, root), 0, 0);
    let key = components(path);
    let (id, next) = match kept_file(prev, key) {
        Some(kept) => (kept, u.next_file),
        None => (file_id(u.next_file), u.next_file + 1),
    };
    let above = u.dirs[parent];
    Tree {
        dirs: u.dirs.update(
            parent,
            Dir { child_files: above.child_files.push(u.files.len() as int), ..above },
        ),
        files: u.files.push(Leaf { id, parent_id: above.id, key }),
        next_file: next,
        ..u
    }
}

/// A tree with nothing but the root. The ids go on where they stood.
pub open spec fn seed(prev: Option<Tree>) -> Tree {
    Tree {
        dirs: seq![
            Dir {
                id: "0"@,
                parent_id: "-1"@,
                name: Seq::empty(),
                rel: Seq::empty(),
                child_dirs: Seq::empty(),
                child_files: Seq::empty(),
            },
        ],
        files: Seq::empty(),
        next_dir: match prev {
            Some(p) => p.next_dir,
            None => 0,
        },
        next_file: match prev {
            Some(p) => p.next_file,
            None => 0,
        },
    }
}

/// The tree of the playable ones of the first `n` files.
pub open spec fn built(files: Seq<Scanned>, n: nat, root: Seq<char>, prev: Option<Tree>) -> Tree
    decreases n,
{
    if n == 0 || n > files.len() {
        seed(prev)
    } else {
        let t = built(files, (n - 1) as nat, root, prev);
        if files[n - 1].playable() {
            with_leaf(t, prev, files[n - 1].path, root)
        } else {
            t
        }
    }
}

/// The tree of a library that had the tree `p` before.
pub open spec fn prev_view(p: Option<&LibraryTree>) -> Option<Tree> {
    match p {
        Some(t) => Some(t.content()),
        None => None,
    }
}

/// Whether positions point into the tree, and from each directory only to later ones.
pub open spec fn points_inside(t: Tree) -> bool {
    &&& t.dirs.len() > 0
    &&& forall|i: int, k: int|
        0 <= i < t.dirs.len() && 0 <= k < t.dirs[i].child_dirs.len() ==> i < (
        #[trigger] t.dirs[i].child_dirs[k]) < t.dirs.len()
    &&& forall|i: int, k: int|
        0 <= i < t.dirs.len() && 0 <= k < t.dirs[i].child_files.len() ==> 0 <= (
        #[trigger] t.dirs[i].child_files[k]) < t.files.len()
}

fn same_names(a: &Vec<String>, b: &Vec<String>, n: usize) -> (r: bool)
    requires
        n <= b@.len(),
    ensures
        r == (views(a@) == views(b@).take(n as int)),
{
    if a.len() != n {
        assert(views(a@).len() != views(b@).take(n as int).len());
        return false;
    }
    let mut i: usize = 0;
    while i < n
        invariant
            i <= n,
            a@.len() == n,
            n <= b@.len(),
            forall|k: int| 0 <= k < i ==> (#[trigger] a@[k])@ == b@[k]@,
        decreases n - i,
    {
        if !same(a[i].as_str(), b[i].as_str()) {
            assert(views(a@)[i as int] != views(b@).take(n as int)[i as int]);
            return false;
        }
        i += 1;
    }
    assert(views(a@) =~= views(b@).take(n as int));
    true
}

fn position_of_dir(dirs: &Vec<DirNode>, names: &Vec<String>, n: usize) -> (r: Option<usize>)
    requires
        n <= names@.len(),
    ensures
        match r {
            Some(i) => i == find_dir(dirs_view(dirs@), views(names@).take(n as int)) && i
                < dirs@.len(),
            None => find_dir(dirs_view(dirs@), views(names@).take(n as int)) == -1,
        },
{
    let ghost all = dirs_view(dirs@);
    let ghost rel = views(names@).take(n as int);
    let mut i: usize = dirs.len();
    assert(all.take(i as int) =~= all);
    while i > 0
        invariant
            i <= dirs@.len(),
            n <= names@.len(),
            all == dirs_view(dirs@),
            rel == views(names@).take(n as int),
            find_dir(all, rel) == find_dir(all.take(i as int), rel),
        decreases i,
    {
        proof {
            assert(all.take(i as int).drop_last() =~= all.take(i - 1));
            assert(all.take(i as int).last() == dirs@[i - 1].content());
        }
        if same_names(&dirs[i - 1].rel, names, n) {
            return Some(i - 1);
        }
        i -= 1;
    }
    None
}

fn position_of_leaf(files: &Vec<FileNode>, key: &Vec<String>) -> (r: Option<usize>)
    ensures
        match r {
            Some(i) => i == find_leaf(files_view(files@), views(key@)) && i < files@.len(),
            None => find_leaf(files_view(files@), views(key@)) == -1,
        },
{
    let ghost all = files_view(files@);
    let mut i: usize = files.len();
    assert(all.take(i as int) =~= all);
    let n: usize = key.len();
    assert(views(key@).take(n as int) =~= views(key@));
    while i > 0
        invariant
            i <= files@.len(),
            n == key@.len(),
            views(key@).take(n as int) == views(key@),
            all == files_view(files@),
            find_leaf(all, views(key@)) == find_leaf(all.take(i as int), views(key@)),
        decreases i,
    {
        proof {
            assert(all.take(i as int).drop_last() =~= all.take(i - 1));
            assert(all.take(i as int).last() == files@[i - 1].content());
        }
        if same_names(&files[i - 1].key, key, n) {
            return Some(i - 1);
        }
        i -= 1;
    }
    None
}

fn first_names(names: &Vec<String>, n: usize) -> (r: Vec<String>)
    requires
        n <= names@.len(),
    ensures
        views(r@) == views(names@).take(n as int),
{
    let mut out: Vec<String> = Vec::new();
    let mut i: usize = 0;
    while i < n
        invariant
            i <= n <= names@.len(),
            out@.len() == i,
            forall|k: int| 0 <= k < i ==> (#[trigger] out@[k])@ == names@[k]@,
        decreases n - i,
    {
        out.push(names[i].clone());
        i += 1;
    }
    assert(views(out@) =~= views(names@).take(n as int));
    out
}

impl LibraryTree {
    fn add_dir(&mut self, prev: Option<&LibraryTree>, names: &Vec<String>, n: usize, parent: usize)
        requires
            0 < n <= names@.len(),
            parent < old(self).dirs@.len(),
            old(self).next_dir_id < u128::MAX,
        ensures
            final(self).content() == with_dir(
                old(self).content(),
                prev_view(prev),
                views(names@).take(n as int),
                parent as int,
            ),
            final(self).dirs@.len() == old(self).dirs@.len() + 1,
            final(self).next_dir_id <= old(self).next_dir_id + 1,
            final(self).files == old(self).files,
            final(self).next_file_id == old(self).next_file_id,
    {
        let ghost was = self.content();
        let ghost rel = views(names@).take(n as int);
        let kept = match prev {
            Some(p) => match position_of_dir(&p.dirs, names, n) {
                Some(i) => {
                    assert(dirs_view(p.dirs@)[i as int] == p.dirs@[i as int].content());
                    Some(p.dirs[i].id.clone())
                },
                None => None,
            },
            None => None,
        };
        let id = match kept {
            Some(k) => k,
            None => {
                let fresh = numbered('d', self.next_dir_id);
                self.next_dir_id = self.next_dir_id + 1;
                fresh
            },
        };
        let at: usize = self.dirs.len();
        let mut above = self.dirs.remove(parent);
        let ghost before = above.content();
        let parent_id = above.id.clone();
        above.child_dirs.push(at);
        assert(positions(above.child_dirs@) =~= before.child_dirs.push(at as int));
        let ghost after = above.content();
        self.dirs.insert(parent, above);
        let node = DirNode {
            id,
            parent_id,
            name: names[n - 1].clone(),
            rel: first_names(names, n),
            child_dirs: Vec::new(),
            child_files: Vec::new(),
        };
        assert(positions(node.child_dirs@) =~= Seq::<int>::empty());
        assert(positions(node.child_files@) =~= Seq::<int>::empty());
        assert(rel.last() == names@[n - 1]@);
        let ghost made = node.content();
        self.dirs.push(node);
        assert(dirs_view(self.dirs@) =~= was.dirs.update(parent as int, after).push(made));
    }

    fn descend(&mut self, prev: Option<&LibraryTree>, names: &Vec<String>) -> (r: usize)
        requires
            old(self).dirs@.len() > 0,
            old(self).next_dir_id + usize::MAX < u128::MAX - old(self).dirs@.len(),
        ensures
            (final(self).content(), r as int) == descended(
                old(self).content(),
                prev_view(prev),
                views(names@),
                0,
                0,
            ),
            r < final(self).dirs@.len(),
            final(self).files == old(self).files,
            final(self).next_file_id == old(self).next_file_id,
            final(self).dirs@.len() - old(self).dirs@.len() >= final(self).next_dir_id - old(
                self).next_dir_id,
            final(self).next_dir_id >= old(self).next_dir_id,
    {
        let ghost start = self.content();
        let ghost p = prev_view(prev);
        let ghost all = views(names@);
        let mut parent: usize = 0;
        let mut k: usize = 0;
        while k < names.len()
            invariant
                k <= names@.len(),
                all == views(names@),
                p == prev_view(prev),
                parent < self.dirs@.len(),
                self.files == old(self).files,
                self.next_file_id == old(self).next_file_id,
                self.dirs@.len() >= old(self).dirs@.len(),
                self.dirs@.len() - old(self).dirs@.len() >= self.next_dir_id - old(
                    self).next_dir_id,
                self.next_dir_id >= old(self).next_dir_id,
                old(self).next_dir_id + usize::MAX < u128::MAX - old(self).dirs@.len(),
                descended(start, p, all, 0, 0) == descended(
                    self.content(),
                    p,
                    all,
                    k as int,
                    parent as int,
                ),
            decreases names@.len() - k,
        {
            assert(self.content().dirs.len() == self.dirs@.len());
            match position_of_dir(&self.dirs, names, k + 1) {
                Some(at) => {
                    parent = at;
                },
                None => {
                    let fresh: usize = self.dirs.len();
                    self.add_dir(prev, names, k + 1, parent);
                    parent = fresh;
                },
            }
            k += 1;
        }
        parent
    }
}

impl LibraryTree {
    fn add_file(&mut self, prev: Option<&LibraryTree>, path: &str, root: &str)
        requires
            old(self).dirs@.len() > 0,
            old(self).next_dir_id + usize::MAX < u128::MAX - old(self).dirs@.len(),
            old(self).next_file_id < u128::MAX,
        ensures
            final(self).content() == with_leaf(
                old(self).content(),
                prev_view(prev),
                path@,
                root@,
            ),
            final(self).dirs@.len() > 0,
            final(self).dirs@.len() - old(self).dirs@.len() >= final(self).next_dir_id - old(
                self).next_dir_id,
            final(self).next_dir_id >= old(self).next_dir_id,
            final(self).files@.len() == old(self).files@.len() + 1,
            final(self).next_file_id <= old(self).next_file_id + 1,
            final(self).next_file_id >= old(self).next_file_id,
    {
        let names = dir_names_of(path, root);
        let parent: usize = self.descend(prev, &names);
        let ghost mid = self.content();
        let key = components_of(path);
        let kept = match prev {
            Some(p) => match position_of_leaf(&p.files, &key) {
                Some(i) => {
                    assert(files_view(p.files@)[i as int] == p.files@[i as int].content());
                    Some(p.files[i].id.clone())
                },
                None => None,
            },
            None => None,
        };
        let id = match kept {
            Some(k) => k,
            None => {
                let fresh = numbered('f', self.next_file_id);
                self.next_file_id = self.next_file_id + 1;
                fresh
            },
        };
        let position: usize = self.files.len();
        let mut above = self.dirs.remove(parent);
        let ghost before = above.content();
        let parent_id = above.id.clone();
        above.child_files.push(position);
        assert(positions(above.child_files@) =~= before.child_files.push(position as int));
        let ghost after = above.content();
        self.dirs.insert(parent, above);
        assert(dirs_view(self.dirs@) =~= mid.dirs.update(parent as int, after));
        let leaf = FileNode { id, parent_id, key };
        let ghost made = leaf.content();
        self.files.push(leaf);
        assert(files_view(self.files@) =~= mid.files.push(made));
    }

    /// The tree of a library's playable files. An object that was in the tree before keeps its id;
    /// a new one draws a fresh id, which no object ever had.
    pub fn build(scan: &Scan, library_root: &str, previous: Option<&LibraryTree>) -> (r: Self)
        requires
            previous is Some ==> previous->0.next_dir_id
                < 0x8000_0000_0000_0000_0000_0000_0000_0000 && previous->0.next_file_id
                < 0x8000_0000_0000_0000_0000_0000_0000_0000,
        ensures
            r.content() == built(
                scan.content().files,
                scan.content().files.len(),
                library_root@,
                prev_view(previous),
            ),
    {
        let ghost p = prev_view(previous);
        let ghost all = contents(scan.files@);
        let root = DirNode {
            id: owned("0"),
            parent_id: owned("-1"),
            name: String::new(),
            rel: Vec::new(),
            child_dirs: Vec::new(),
            child_files: Vec::new(),
        };
        assert(views(root.rel@) =~= Seq::<Seq<char>>::empty());
        assert(positions(root.child_dirs@) =~= Seq::<int>::empty());
        assert(positions(root.child_files@) =~= Seq::<int>::empty());
        let (next_dir_id, next_file_id): (u128, u128) = match previous {
            Some(t) => (t.next_dir_id, t.next_file_id),
            None => (0, 0),
        };
        let mut tree = LibraryTree {
            dirs: vec![root],
            files: Vec::new(),
            next_dir_id,
            next_file_id,
        };
        assert(dirs_view(tree.dirs@) =~= seed(p).dirs);
        assert(files_view(tree.files@) =~= Seq::<Leaf>::empty());
        let mut i: usize = 0;
        while i < scan.files.len()
            invariant
                i <= scan.files@.len(),
                all == contents(scan.files@),
                p == prev_view(previous),
                tree.dirs@.len() > 0,
                tree.content() == built(all, i as nat, library_root@, p),
                next_dir_id < 0x8000_0000_0000_0000_0000_0000_0000_0000,
                next_file_id < 0x8000_0000_0000_0000_0000_0000_0000_0000,
                next_dir_id <= tree.next_dir_id,
                tree.next_dir_id - next_dir_id <= tree.dirs@.len(),
                tree.next_file_id - next_file_id <= tree.files@.len(),
            decreases scan.files@.len() - i,
        {
            let dirs: usize = tree.dirs.len();
            let files: usize = tree.files.len();
            assert(all[i as int] == scan.files@[i as int].content());
            if scan.files[i].is_playable() {
                tree.add_file(previous, scan.files[i].path.as_str(), library_root);
            }
            i += 1;
        }
        tree
    }

    /// The directory with an id; of several the last.
    pub fn dir_by_id(&self, id: &str) -> (r: Option<usize>)
        ensures
            match r {
                Some(i) => i == dir_at(self.content().dirs, id@) && i < self.dirs@.len(),
                None => dir_at(self.content().dirs, id@) == -1,
            },
    {
        let ghost all = dirs_view(self.dirs@);
        let mut i: usize = self.dirs.len();
        assert(all.take(i as int) =~= all);
        while i > 0
            invariant
                i <= self.dirs@.len(),
                all == dirs_view(self.dirs@),
                dir_at(all, id@) == dir_at(all.take(i as int), id@),
            decreases i,
        {
            proof {
                assert(all.take(i as int).drop_last() =~= all.take(i - 1));
                assert(all.take(i as int).last() == self.dirs@[i - 1].content());
            }
            if same(self.dirs[i - 1].id.as_str(), id) {
                return Some(i - 1);
            }
            i -= 1;
        }
        None
    }

    /// The id of the file at a position.
    pub fn file_id(&self, position: usize) -> (r: &str)
        requires
            position < self.files@.len(),
        ensures
            r@ == self.content().files[position as int].id,
    {
        self.files[position].id.as_str()
    }

    /// The position of the file with an id; of several the last.
    pub fn file_position(&self, id: &str) -> (r: Option<usize>)
        ensures
            match r {
                Some(i) => i == leaf_at(self.content().files, id@) && i < self.files@.len(),
                None => leaf_at(self.content().files, id@) == -1,
            },
    {
        let ghost all = files_view(self.files@);
        let mut i: usize = self.files.len();
        assert(all.take(i as int) =~= all);
        while i > 0
            invariant
                i <= self.files@.len(),
                all == files_view(self.files@),
                leaf_at(all, id@) == leaf_at(all.take(i as int), id@),
            decreases i,
        {
            proof {
                assert(all.take(i as int).drop_last() =~= all.take(i - 1));
                assert(all.take(i as int).last() == self.files@[i - 1].content());
            }
            if same(self.files[i - 1].id.as_str(), id) {
                return Some(i - 1);
            }
            i -= 1;
        }
        None
    }
}

/// The position of the last directory with an id, or -1.
pub open spec fn dir_at(dirs: Seq<Dir>, id: Seq<char>) -> int
    decreases dirs.len(),
{
    if dirs.len() == 0 {
        -1
    } else if dirs.last().id == id {
        dirs.len() - 1
    } else {
        dir_at(dirs.drop_last(), id)
    }
}

/// The position of the last file with an id, or -1.
pub open spec fn leaf_at(files: Seq<Leaf>, id: Seq<char>) -> int
    decreases files.len(),
{
    if files.len() == 0 {
        -1
    } else if files.last().id == id {
        files.len() - 1
    } else {
        leaf_at(files.drop_last(), id)
    }
}

/// Different numbers have different numerals.
proof fn dec_is_injective(a: nat, b: nat)
    requires
        dec(a) == dec(b),
    ensures
        a == b,
{
    crate::json_writer::dec_value(a);
    crate::json_writer::dec_value(b);
}

/// Different numbers make different ids.
proof fn ids_differ(letter: char, a: nat, b: nat)
    requires
        a != b,
    ensures
        seq![letter] + dec(a) != seq![letter] + dec(b),
{
    let x = seq![letter] + dec(a);
    let y = seq![letter] + dec(b);
    if x == y {
        assert(x.skip(1) =~= dec(a));
        assert(y.skip(1) =~= dec(b));
        dec_is_injective(a, b);
    }
}

/// Whether an id is one of the first `next` numbered ids of a letter.
pub open spec fn issued(id: Seq<char>, letter: char, next: nat) -> bool {
    exists|n: nat| n < next && id == #[trigger] numbered_id(letter, n)
}

/// The numbered id of a letter.
pub open spec fn numbered_id(letter: char, n: nat) -> Seq<char> {
    seq![letter] + dec(n)
}

/// Whether an id was drawn fresh: its number is not below `from`.
pub open spec fn fresh(id: Seq<char>, letter: char, from: nat, next: nat) -> bool {
    exists|n: nat| from <= n < next && id == #[trigger] numbered_id(letter, n)
}

/// The counter that a tree's directory ids started from.
pub open spec fn first_dir(prev: Option<Tree>) -> nat {
    match prev {
        Some(p) => p.next_dir,
        None => 0,
    }
}

/// The counter that a tree's file ids started from.
pub open spec fn first_file(prev: Option<Tree>) -> nat {
    match prev {
        Some(p) => p.next_file,
        None => 0,
    }
}

/// A well-formed tree: the root comes first, positions point inside, no two directories share a
/// place or an id, every id has been issued, and files of different paths have different ids.
pub open spec fn well_formed(t: Tree) -> bool {
    &&& points_inside(t)
    &&& t.dirs[0].id == "0"@
    &&& t.dirs[0].rel.len() == 0
    &&& forall|i: int, j: int|
        0 <= i < j < t.dirs.len() ==> (#[trigger] t.dirs[i]).rel != (#[trigger] t.dirs[j]).rel
            && t.dirs[i].id != t.dirs[j].id
    &&& forall|i: int|
        0 < i < t.dirs.len() ==> (#[trigger] t.dirs[i]).rel.len() > 0 && issued(
            t.dirs[i].id,
            'd',
            t.next_dir,
        )
    &&& forall|i: int| 0 <= i < t.files.len() ==> issued((#[trigger] t.files[i]).id, 'f', t.next_file)
    &&& forall|i: int, j: int|
        0 <= i < j < t.files.len() && (#[trigger] t.files[i]).key != (#[trigger] t.files[j]).key
            ==> t.files[i].id != t.files[j].id
}

/// Whether every id of a tree is the one that its object had before, or a fresh one.
pub open spec fn carries_ids(t: Tree, prev: Option<Tree>) -> bool {
    &&& first_dir(prev) <= t.next_dir
    &&& first_file(prev) <= t.next_file
    &&& forall|i: int|
        0 < i < t.dirs.len() ==> match kept_dir(prev, (#[trigger] t.dirs[i]).rel) {
            Some(id) => t.dirs[i].id == id,
            None => fresh(t.dirs[i].id, 'd', first_dir(prev), t.next_dir),
        }
    &&& forall|i: int|
        0 <= i < t.files.len() ==> match kept_file(prev, (#[trigger] t.files[i]).key) {
            Some(id) => t.files[i].id == id,
            None => fresh(t.files[i].id, 'f', first_file(prev), t.next_file),
        }
}

proof fn find_dir_is_there(dirs: Seq<Dir>, rel: Seq<Seq<char>>)
    ensures
        -1 <= find_dir(dirs, rel) < dirs.len(),
        find_dir(dirs, rel) >= 0 ==> dirs[find_dir(dirs, rel)].rel == rel,
        find_dir(dirs, rel) == -1 ==> forall|i: int|
            0 <= i < dirs.len() ==> (#[trigger] dirs[i]).rel != rel,
    decreases dirs.len(),
{
    if dirs.len() > 0 && dirs.last().rel != rel {
        find_dir_is_there(dirs.drop_last(), rel);
        assert forall|i: int| 0 <= i < dirs.len() && find_dir(dirs, rel) == -1 implies (
        #[trigger] dirs[i]).rel != rel by {
            if i < dirs.len() - 1 {
                assert(dirs.drop_last()[i] == dirs[i]);
            }
        }
    }
}

proof fn find_leaf_is_there(files: Seq<Leaf>, key: Seq<Seq<char>>)
    ensures
        -1 <= find_leaf(files, key) < files.len(),
        find_leaf(files, key) >= 0 ==> files[find_leaf(files, key)].key == key,
    decreases files.len(),
{
    if files.len() > 0 && files.last().key != key {
        find_leaf_is_there(files.drop_last(), key);
    }
}

/// A kept directory id was issued before, and belongs to one place only.
proof fn kept_dirs_differ(prev: Option<Tree>, a: Seq<Seq<char>>, b: Seq<Seq<char>>)
    requires
        prev is Some ==> well_formed(prev->0),
        a.len() > 0,
        b.len() > 0,
    ensures
        kept_dir(prev, a) is Some ==> issued(kept_dir(prev, a)->0, 'd', first_dir(prev)),
        kept_dir(prev, a) is Some && kept_dir(prev, b) is Some && a != b ==> kept_dir(prev, a)
            != kept_dir(prev, b),
{
    match prev {
        Some(p) => {
            find_dir_is_there(p.dirs, a);
            find_dir_is_there(p.dirs, b);
            let i = find_dir(p.dirs, a);
            let j = find_dir(p.dirs, b);
            if i >= 0 {
                assert(p.dirs[i].rel == a);
                if i == 0 {
                    assert(p.dirs[0].rel.len() == 0);
                }
            }
            if j >= 0 {
                assert(p.dirs[j].rel == b);
            }
            if i >= 0 && j >= 0 && a != b {
                if i < j {
                    assert(p.dirs[i].id != p.dirs[j].id);
                } else {
                    assert(j < i);
                    assert(p.dirs[j].id != p.dirs[i].id);
                }
            }
        },
        None => {},
    }
}

proof fn kept_files_differ(prev: Option<Tree>, a: Seq<Seq<char>>, b: Seq<Seq<char>>)
    requires
        prev is Some ==> well_formed(prev->0),
    ensures
        kept_file(prev, a) is Some ==> issued(kept_file(prev, a)->0, 'f', first_file(prev)),
        kept_file(prev, a) is Some && kept_file(prev, b) is Some && a != b ==> kept_file(prev, a)
            != kept_file(prev, b),
{
    match prev {
        Some(p) => {
            find_leaf_is_there(p.files, a);
            find_leaf_is_there(p.files, b);
            let i = find_leaf(p.files, a);
            let j = find_leaf(p.files, b);
            if i >= 0 {
                assert(p.files[i].key == a);
            }
            if j >= 0 {
                assert(p.files[j].key == b);
            }
            if i >= 0 && j >= 0 && a != b {
                if i < j {
                    assert(p.files[i].id != p.files[j].id);
                } else {
                    assert(j < i);
                    assert(p.files[j].id != p.files[i].id);
                }
            }
        },
        None => {},
    }
}

/// Ids issued before a count and ids drawn from it on have nothing in common.
proof fn issued_and_fresh_differ(a: Seq<char>, b: Seq<char>, letter: char, from: nat, next: nat)
    requires
        issued(a, letter, from),
        fresh(b, letter, from, next),
    ensures
        a != b,
{
    let m = choose|n: nat| n < from && a == #[trigger] numbered_id(letter, n);
    let n = choose|n: nat| from <= n < next && b == #[trigger] numbered_id(letter, n);
    ids_differ(letter, m, n);
}

proof fn issued_grows(id: Seq<char>, letter: char, next: nat, more: nat)
    requires
        next <= more,
    ensures
        issued(id, letter, next) ==> issued(id, letter, more),
        forall|from: nat| fresh(id, letter, from, next) ==> #[trigger] fresh(id, letter, from, more),
        forall|from: nat| #[trigger] fresh(id, letter, from, next) ==> issued(id, letter, more),
{
    if issued(id, letter, next) {
        let n = choose|n: nat| n < next && id == #[trigger] numbered_id(letter, n);
        assert(n < more && id == numbered_id(letter, n));
    }
    assert forall|from: nat| fresh(id, letter, from, next) implies #[trigger] fresh(
        id,
        letter,
        from,
        more,
    ) && issued(id, letter, more) by {
        let n = choose|n: nat| from <= n < next && id == #[trigger] numbered_id(letter, n);
        assert(from <= n < more && id == numbered_id(letter, n));
    }
}

/// Adding a directory keeps a tree well-formed and its ids carried over.
proof fn with_dir_keeps(t: Tree, prev: Option<Tree>, rel: Seq<Seq<char>>, parent: int)
    requires
        prev is Some ==> well_formed(prev->0),
        well_formed(t),
        carries_ids(t, prev),
        0 <= parent < t.dirs.len(),
        rel.len() > 0,
        find_dir(t.dirs, rel) == -1,
    ensures
        well_formed(with_dir(t, prev, rel, parent)),
        carries_ids(with_dir(t, prev, rel, parent), prev),
{
    let u = with_dir(t, prev, rel, parent);
    let n = t.dirs.len() as int;
    let id = u.dirs[n].id;
    let from = first_dir(prev);
    find_dir_is_there(t.dirs, rel);
    kept_dirs_differ(prev, rel, rel);
    match kept_dir(prev, rel) {
        Some(kept) => {
            issued_grows(kept, 'd', from, u.next_dir);
        },
        None => {
            assert(id == numbered_id('d', t.next_dir));
            assert(fresh(id, 'd', from, u.next_dir));
            issued_grows(id, 'd', u.next_dir, u.next_dir);
        },
    }
    assert(issued(id, 'd', u.next_dir));
    assert forall|i: int| 0 <= i < n implies u.dirs[i].id == t.dirs[i].id && u.dirs[i].rel
        == t.dirs[i].rel && u.dirs[i].child_files == t.dirs[i].child_files by {}
    assert forall|i: int| 0 <= i < n implies #[trigger] t.dirs[i].id != id by {
        if i == 0 {
            reveal_strlit("0");
            let k = choose|k: nat| k < u.next_dir && id == #[trigger] numbered_id('d', k);
            assert(id[0] == 'd');
            assert("0"@[0] == '0');
        } else {
            assert(t.dirs[i].rel.len() > 0);
            kept_dirs_differ(prev, t.dirs[i].rel, rel);
            assert(t.dirs[i].rel != rel);
            match (kept_dir(prev, t.dirs[i].rel), kept_dir(prev, rel)) {
                (Some(a), Some(b)) => {},
                (Some(a), None) => {
                    issued_and_fresh_differ(a, id, 'd', from, u.next_dir);
                },
                (None, Some(b)) => {
                    issued_and_fresh_differ(b, t.dirs[i].id, 'd', from, t.next_dir);
                },
                (None, None) => {
                    let k = choose|k: nat|
                        from <= k < t.next_dir && t.dirs[i].id == #[trigger] numbered_id('d', k);
                    ids_differ('d', k, t.next_dir);
                },
            }
        }
    }
    assert forall|i: int, j: int| 0 <= i < j < u.dirs.len() implies (#[trigger] u.dirs[i]).rel != (
    #[trigger] u.dirs[j]).rel && u.dirs[i].id != u.dirs[j].id by {
        if j == n {
            assert(t.dirs[i].rel != rel);
            assert(t.dirs[i].id != id);
        } else {
            assert(t.dirs[i].rel != t.dirs[j].rel);
        }
    }
    assert forall|i: int| 0 < i < u.dirs.len() implies (#[trigger] u.dirs[i]).rel.len() > 0
        && issued(u.dirs[i].id, 'd', u.next_dir) by {
        if i < n {
            assert(t.dirs[i].rel.len() > 0);
            issued_grows(t.dirs[i].id, 'd', t.next_dir, u.next_dir);
        }
    }
    assert forall|i: int| 0 < i < u.dirs.len() implies match kept_dir(
        prev,
        (#[trigger] u.dirs[i]).rel,
    ) {
        Some(x) => u.dirs[i].id == x,
        None => fresh(u.dirs[i].id, 'd', from, u.next_dir),
    } by {
        if i < n {
            assert(t.dirs[i].rel.len() > 0);
            issued_grows(t.dirs[i].id, 'd', t.next_dir, u.next_dir);
        }
    }
    assert forall|i: int, k: int|
        0 <= i < u.dirs.len() && 0 <= k < u.dirs[i].child_dirs.len() implies i < (
    #[trigger] u.dirs[i].child_dirs[k]) < u.dirs.len() by {
        if i < n {
            if i == parent && k == t.dirs[parent].child_dirs.len() {
            } else {
                assert(u.dirs[i].child_dirs[k] == t.dirs[i].child_dirs[k]);
            }
        }
    }
    assert forall|i: int, k: int|
        0 <= i < u.dirs.len() && 0 <= k < u.dirs[i].child_files.len() implies 0 <= (
    #[trigger] u.dirs[i].child_files[k]) < u.files.len() by {
        if i < n {
            assert(u.dirs[i].child_files[k] == t.dirs[i].child_files[k]);
        }
    }
}

proof fn descended_keeps(
    t: Tree,
    prev: Option<Tree>,
    names: Seq<Seq<char>>,
    k: int,
    parent: int,
)
    requires
        prev is Some ==> well_formed(prev->0),
        well_formed(t),
        carries_ids(t, prev),
        0 <= k <= names.len(),
        0 <= parent < t.dirs.len(),
    ensures
        ({
            let (u, at) = descended(t, prev, names, k, parent);
            &&& well_formed(u)
            &&& carries_ids(u, prev)
            &&& 0 <= at < u.dirs.len()
            &&& u.files == t.files
            &&& u.next_file == t.next_file
        }),
    decreases names.len() - k,
{
    if k < names.len() {
        let rel = names.take(k + 1);
        find_dir_is_there(t.dirs, rel);
        let at = find_dir(t.dirs, rel);
        if at >= 0 {
            descended_keeps(t, prev, names, k + 1, at);
        } else {
            with_dir_keeps(t, prev, rel, parent);
            descended_keeps(
                with_dir(t, prev, rel, parent),
                prev,
                names,
                k + 1,
                t.dirs.len() as int,
            );
        }
    }
}

proof fn with_leaf_keeps(t: Tree, prev: Option<Tree>, path: Seq<char>, root: Seq<char>)
    requires
        prev is Some ==> well_formed(prev->0),
        well_formed(t),
        carries_ids(t, prev),
    ensures
        well_formed(with_leaf(t, prev, path, root)),
        carries_ids(with_leaf(t, prev, path, root), prev),
{
    let names = dir_names(path, root);
    descended_keeps(t, prev, names, 0, 0);
    let (u, parent) = descended(t, prev, names, 0, 0);
    let w = with_leaf(t, prev, path, root);
    let key = components(path);
    let n = u.files.len() as int;
    let id = w.files[n].id;
    let from = first_file(prev);
    kept_files_differ(prev, key, key);
    match kept_file(prev, key) {
        Some(kept) => {
            issued_grows(kept, 'f', from, w.next_file);
        },
        None => {
            assert(id == numbered_id('f', u.next_file));
            assert(fresh(id, 'f', from, w.next_file));
            issued_grows(id, 'f', w.next_file, w.next_file);
        },
    }
    assert forall|i: int| 0 <= i < u.dirs.len() implies w.dirs[i].id == u.dirs[i].id
        && w.dirs[i].rel == u.dirs[i].rel && w.dirs[i].child_dirs == u.dirs[i].child_dirs by {}
    assert forall|i: int| 0 <= i < w.files.len() implies issued(
        (#[trigger] w.files[i]).id,
        'f',
        w.next_file,
    ) by {
        if i < n {
            assert(issued(u.files[i].id, 'f', u.next_file));
            issued_grows(u.files[i].id, 'f', u.next_file, w.next_file);
        }
    }
    assert forall|i: int, j: int|
        0 <= i < j < w.files.len() && (#[trigger] w.files[i]).key != (
        #[trigger] w.files[j]).key implies w.files[i].id != w.files[j].id by {
        if j == n {
            let other = u.files[i].key;
            kept_files_differ(prev, other, key);
            match (kept_file(prev, other), kept_file(prev, key)) {
                (Some(a), Some(b)) => {},
                (Some(a), None) => {
                    issued_and_fresh_differ(a, id, 'f', from, w.next_file);
                },
                (None, Some(b)) => {
                    issued_and_fresh_differ(b, u.files[i].id, 'f', from, u.next_file);
                },
                (None, None) => {
                    let k = choose|k: nat|
                        from <= k < u.next_file && u.files[i].id == #[trigger] numbered_id('f', k);
                    ids_differ('f', k, u.next_file);
                },
            }
        } else {
            assert(u.files[i].key != u.files[j].key);
        }
    }
    assert forall|i: int| 0 <= i < w.files.len() implies match kept_file(
        prev,
        (#[trigger] w.files[i]).key,
    ) {
        Some(x) => w.files[i].id == x,
        None => fresh(w.files[i].id, 'f', from, w.next_file),
    } by {
        if i < n {
            assert(u.files[i].key == w.files[i].key);
            issued_grows(u.files[i].id, 'f', u.next_file, w.next_file);
        }
    }
    assert forall|i: int| 0 < i < w.dirs.len() implies match kept_dir(
        prev,
        (#[trigger] w.dirs[i]).rel,
    ) {
        Some(x) => w.dirs[i].id == x,
        None => fresh(w.dirs[i].id, 'd', first_dir(prev), w.next_dir),
    } by {
        assert(u.dirs[i].rel == w.dirs[i].rel);
    }
    assert forall|i: int, j: int| 0 <= i < j < w.dirs.len() implies (#[trigger] w.dirs[i]).rel != (
    #[trigger] w.dirs[j]).rel && w.dirs[i].id != w.dirs[j].id by {
        assert(u.dirs[i].rel != u.dirs[j].rel);
    }
    assert forall|i: int| 0 < i < w.dirs.len() implies (#[trigger] w.dirs[i]).rel.len() > 0
        && issued(w.dirs[i].id, 'd', w.next_dir) by {
        assert(u.dirs[i].rel.len() > 0);
    }
    assert forall|i: int, k: int|
        0 <= i < w.dirs.len() && 0 <= k < w.dirs[i].child_dirs.len() implies i < (
    #[trigger] w.dirs[i].child_dirs[k]) < w.dirs.len() by {
        assert(u.dirs[i].child_dirs[k] == w.dirs[i].child_dirs[k]);
    }
    assert forall|i: int, k: int|
        0 <= i < w.dirs.len() && 0 <= k < w.dirs[i].child_files.len() implies 0 <= (
    #[trigger] w.dirs[i].child_files[k]) < w.files.len() by {
        if i == parent && k == u.dirs[parent].child_files.len() {
        } else {
            assert(u.dirs[i].child_files[k] == w.dirs[i].child_files[k]);
        }
    }
}

/// However a library changes, its tree is well-formed: no two directories share an id, and neither
/// do files of different paths. Every object that was in the tree before keeps its id. Every other
/// object has an id that no object of the tree ever had.
pub proof fn ids_are_stable(files: Seq<Scanned>, n: nat, root: Seq<char>, prev: Option<Tree>)
    requires
        n <= files.len(),
        prev is Some ==> well_formed(prev->0),
    ensures
        well_formed(built(files, n, root, prev)),
        carries_ids(built(files, n, root, prev), prev),
    decreases n,
{
    if n > 0 {
        ids_are_stable(files, (n - 1) as nat, root, prev);
        if files[n - 1].playable() {
            with_leaf_keeps(
                built(files, (n - 1) as nat, root, prev),
                prev,
                files[n - 1].path,
                root,
            );
        }
    } else {
        reveal_strlit("0");
    }
}

/// A directory and a file never share an id.
pub proof fn directories_and_files_differ(t: Tree, i: int, j: int)
    requires
        well_formed(t),
        0 <= i < t.dirs.len(),
        0 <= j < t.files.len(),
    ensures
        t.dirs[i].id != t.files[j].id,
{
    reveal_strlit("0");
    assert(issued(t.files[j].id, 'f', t.next_file));
    let b = choose|n: nat| n < t.next_file && t.files[j].id == #[trigger] numbered_id('f', n);
    assert(t.files[j].id[0] == 'f');
    if i > 0 {
        assert(issued(t.dirs[i].id, 'd', t.next_dir));
        let a = choose|n: nat| n < t.next_dir && t.dirs[i].id == #[trigger] numbered_id('d', n);
        assert(t.dirs[i].id[0] == 'd');
    } else {
        assert("0"@[0] == '0');
    }
}

/// An id that was retired is never given out again: what was not in the tree before has an id from
/// the counter that the tree had then, which only ever goes up.
pub proof fn retired_ids_stay_retired(t: Tree, prev: Tree, i: int, id: Seq<char>)
    requires
        well_formed(prev),
        carries_ids(t, Some(prev)),
        0 <= i < t.files.len(),
        kept_file(Some(prev), t.files[i].key) is None,
        issued(id, 'f', prev.next_file),
    ensures
        t.files[i].id != id,
        t.next_file >= prev.next_file,
{
    assert(fresh(t.files[i].id, 'f', prev.next_file, t.next_file));
    issued_and_fresh_differ(id, t.files[i].id, 'f', prev.next_file, t.next_file);
}

/// Whether the directory above each directory is in the tree too.
spec fn closed_upwards(t: Tree) -> bool {
    forall|i: int|
        0 < i < t.dirs.len() ==> find_dir(t.dirs, (#[trigger] t.dirs[i]).rel.drop_last()) >= 0
}

/// Whether every directory but the root and the one at `but` leads to something.
spec fn filled_but(t: Tree, but: int) -> bool {
    forall|i: int|
        0 < i < t.dirs.len() && i != but ==> (#[trigger] t.dirs[i]).child_dirs.len()
            + t.dirs[i].child_files.len() > 0
}

proof fn find_dir_finds(dirs: Seq<Dir>, i: int)
    requires
        0 <= i < dirs.len(),
    ensures
        find_dir(dirs, dirs[i].rel) >= i,
    decreases dirs.len(),
{
    if dirs.last().rel != dirs[i].rel {
        assert(dirs.drop_last()[i] == dirs[i]);
        find_dir_finds(dirs.drop_last(), i);
    }
}

proof fn descended_fills(
    t: Tree,
    prev: Option<Tree>,
    names: Seq<Seq<char>>,
    k: int,
    parent: int,
)
    requires
        prev is Some ==> well_formed(prev->0),
        well_formed(t),
        carries_ids(t, prev),
        closed_upwards(t),
        0 <= k <= names.len(),
        0 <= parent < t.dirs.len(),
        t.dirs[parent].rel == names.take(k),
        filled_but(t, parent),
        filled_but(t, -1) || forall|i: int|
            0 <= i < t.dirs.len() ==> (#[trigger] t.dirs[i]).rel.len() <= k || !names.take(
                k,
            ).is_prefix_of(t.dirs[i].rel),
    ensures
        ({
            let (u, at) = descended(t, prev, names, k, parent);
            closed_upwards(u) && filled_but(u, at)
        }),
    decreases names.len() - k,
{
    if k < names.len() {
        let rel = names.take(k + 1);
        find_dir_is_there(t.dirs, rel);
        let at = find_dir(t.dirs, rel);
        assert(rel.drop_last() =~= names.take(k));
        if at >= 0 {
            assert(t.dirs[at].rel == rel);
            assert(names.take(k).is_prefix_of(rel)) by {
                assert(rel.subrange(0, k) =~= names.take(k));
            }
            assert(filled_but(t, -1));
            assert(filled_but(t, at));
            descended_fills(t, prev, names, k + 1, at);
        } else {
            let u = with_dir(t, prev, rel, parent);
            let n = t.dirs.len() as int;
            with_dir_keeps(t, prev, rel, parent);
            assert forall|i: int| 0 <= i < n implies u.dirs[i].rel == t.dirs[i].rel by {}
            assert forall|i: int| 0 < i < u.dirs.len() implies find_dir(
                u.dirs,
                (#[trigger] u.dirs[i]).rel.drop_last(),
            ) >= 0 by {
                if i < n {
                    let up = t.dirs[i].rel.drop_last();
                    assert(find_dir(t.dirs, t.dirs[i].rel.drop_last()) >= 0);
                    find_dir_is_there(t.dirs, up);
                    let j = find_dir(t.dirs, up);
                    assert(u.dirs[j].rel == up);
                    find_dir_finds(u.dirs, j);
                } else {
                    assert(u.dirs[parent].rel == names.take(k));
                    find_dir_finds(u.dirs, parent);
                }
            }
            assert(filled_but(u, n)) by {
                assert forall|i: int| 0 < i < u.dirs.len() && i != n implies (
                #[trigger] u.dirs[i]).child_dirs.len() + u.dirs[i].child_files.len() > 0 by {
                    if i != parent {
                        assert(t.dirs[i].child_dirs.len() + t.dirs[i].child_files.len() > 0);
                    }
                }
            }
            // Nothing lies below a directory that has just been made.
            assert forall|i: int| 0 <= i < u.dirs.len() implies (#[trigger] u.dirs[i]).rel.len() <= k
                + 1 || !names.take(k + 1).is_prefix_of(u.dirs[i].rel) by {
                if i < n && u.dirs[i].rel.len() > k + 1 && rel.is_prefix_of(u.dirs[i].rel) {
                    nothing_below_the_missing(t, rel, i);
                }
            }
            descended_fills(u, prev, names, k + 1, n);
        }
    }
}

/// Where a directory is missing, so is everything below it.
proof fn nothing_below_the_missing(t: Tree, rel: Seq<Seq<char>>, i: int)
    requires
        closed_upwards(t),
        well_formed(t),
        0 <= i < t.dirs.len(),
        rel.len() > 0,
        t.dirs[i].rel.len() >= rel.len(),
        rel.is_prefix_of(t.dirs[i].rel),
    ensures
        find_dir(t.dirs, rel) >= 0,
    decreases t.dirs[i].rel.len(),
{
    let mine = t.dirs[i].rel;
    if mine.len() == rel.len() {
        assert(mine =~= rel);
        find_dir_finds(t.dirs, i);
    } else {
        if i == 0 {
            assert(t.dirs[0].rel.len() == 0);
        }
        let up = mine.drop_last();
        assert(find_dir(t.dirs, t.dirs[i].rel.drop_last()) >= 0);
        find_dir_is_there(t.dirs, up);
        let j = find_dir(t.dirs, up);
        assert(rel.is_prefix_of(up)) by {
            assert(up.subrange(0, rel.len() as int) =~= mine.subrange(0, rel.len() as int));
        }
        nothing_below_the_missing(t, rel, j);
    }
}

proof fn filled(files: Seq<Scanned>, n: nat, root: Seq<char>, prev: Option<Tree>)
    requires
        n <= files.len(),
        prev is Some ==> well_formed(prev->0),
    ensures
        filled_but(built(files, n, root, prev), -1),
        closed_upwards(built(files, n, root, prev)),
    decreases n,
{
    if n > 0 {
        filled(files, (n - 1) as nat, root, prev);
        ids_are_stable(files, (n - 1) as nat, root, prev);
        let t = built(files, (n - 1) as nat, root, prev);
        if files[n - 1].playable() {
            let names = dir_names(files[n - 1].path, root);
            assert(names.take(0) =~= Seq::<Seq<char>>::empty());
            assert(t.dirs[0].rel =~= Seq::<Seq<char>>::empty());
            assert(filled_but(t, 0));
            descended_fills(t, prev, names, 0, 0);
            descended_keeps(t, prev, names, 0, 0);
            let (u, at) = descended(t, prev, names, 0, 0);
            let w = with_leaf(t, prev, files[n - 1].path, root);
            assert forall|i: int| 0 < i < w.dirs.len() implies find_dir(
                w.dirs,
                (#[trigger] w.dirs[i]).rel.drop_last(),
            ) >= 0 by {
                let up = u.dirs[i].rel.drop_last();
                assert(find_dir(u.dirs, u.dirs[i].rel.drop_last()) >= 0);
                find_dir_is_there(u.dirs, up);
                let j = find_dir(u.dirs, up);
                assert(w.dirs[j].rel == up);
                find_dir_finds(w.dirs, j);
            }
            assert forall|i: int| 0 < i < w.dirs.len() && i != -1 implies (
            #[trigger] w.dirs[i]).child_dirs.len() + w.dirs[i].child_files.len() > 0 by {
                if i != at {
                    assert(u.dirs[i].child_dirs.len() + u.dirs[i].child_files.len() > 0);
                }
            }
        }
    }
}

/// What kind of object is listed.
#[derive(Debug, Clone, Copy, PartialEq, Eq, Structural)]
pub enum ObjectClass {
    StorageFolder,
    VideoItem,
}

/// Where an object's bytes are to be had.
#[derive(Debug, Clone, PartialEq)]
pub struct DidlResource {
    pub url: String,
    pub mime_type: String,
    pub size_bytes: Option<u64>,
}

/// An object of a listing.
#[derive(Debug, Clone, PartialEq)]
pub struct DidlObject {
    pub id: String,
    pub parent_id: String,
    pub title: String,
    pub class: ObjectClass,
    pub resource: Option<DidlResource>,
}

/// An object of a listing; a resource is an address, a media type and a size.
pub struct Object {
    pub id: Seq<char>,
    pub parent_id: Seq<char>,
    pub title: Seq<char>,
    pub class: ObjectClass,
    pub resource: Option<(Seq<char>, Seq<char>, Option<u64>)>,
}

impl DidlObject {
    /// The object.
    pub open spec fn content(self) -> Object {
        Object {
            id: self.id@,
            parent_id: self.parent_id@,
            title: self.title@,
            class: self.class,
            resource: match self.resource {
                Some(r) => Some((r.url@, r.mime_type@, r.size_bytes)),
                None => None,
            },
        }
    }
}

/// The objects.
pub open spec fn objects_view(v: Seq<DidlObject>) -> Seq<Object> {
    Seq::new(v.len(), |i: int| v[i].content())
}

/// The class of a file. Audio is not told apart yet.
pub fn object_class_for(container: Option<Container>) -> (r: ObjectClass)
    ensures
        r == ObjectClass::VideoItem,
{
    ObjectClass::VideoItem
}

/// The files that play, in order.
pub open spec fn played(files: Seq<Scanned>) -> Seq<Scanned> {
    files.filter(|f: Scanned| f.playable())
}

/// Whether a tree is that of these files: it is well-formed, and its files are these, in their order.
pub open spec fn tree_of(t: Tree, played: Seq<Scanned>) -> bool {
    &&& well_formed(t)
    &&& t.files.len() == played.len()
    &&& forall|i: int|
        0 <= i < played.len() ==> (#[trigger] t.files[i]).key == components(played[i].path)
}

/// However a library changes, a file's place in its tree is its place among the playable files.
pub proof fn places_agree(files: Seq<Scanned>, n: nat, root: Seq<char>, prev: Option<Tree>)
    requires
        n <= files.len(),
        prev is Some ==> well_formed(prev->0),
    ensures
        tree_of(built(files, n, root, prev), played(files.take(n as int))),
    decreases n,
{
    reveal(Seq::filter);
    ids_are_stable(files, n, root, prev);
    if n > 0 {
        let before = (n - 1) as nat;
        ids_are_stable(files, before, root, prev);
        places_agree(files, before, root, prev);
        assert(files.take(n as int).drop_last() =~= files.take(before as int));
        if files[n - 1].playable() {
            descended_keeps(
                built(files, before, root, prev),
                prev,
                dir_names(files[n - 1].path, root),
                0,
                0,
            );
        }
    }
}

proof fn last_leaf_has_the_id(files: Seq<Leaf>, i: int)
    requires
        0 <= i < files.len(),
    ensures
        i <= leaf_at(files, files[i].id) < files.len(),
        files[leaf_at(files, files[i].id)].id == files[i].id,
    decreases files.len(),
{
    if files.last().id != files[i].id {
        last_leaf_has_the_id(files.drop_last(), i);
        assert(files.drop_last()[i] == files[i]);
    }
}

/// The id under which a file is listed leads back to a file of the same path.
pub proof fn listed_files_are_served(t: Tree, played: Seq<Scanned>, i: int)
    requires
        tree_of(t, played),
        0 <= i < played.len(),
    ensures
        0 <= leaf_at(t.files, t.files[i].id) < played.len(),
        components(played[leaf_at(t.files, t.files[i].id)].path) == components(played[i].path),
{
    last_leaf_has_the_id(t.files, i);
    let j = leaf_at(t.files, t.files[i].id);
    if t.files[j].key != t.files[i].key {
        assert(i < j);
    }
    assert(t.files[j].key == components(played[j].path));
    assert(t.files[i].key == components(played[i].path));
}

/// A directory as it is listed.
pub open spec fn folder_object(d: Dir) -> Object {
    Object {
        id: d.id,
        parent_id: d.parent_id,
        title: d.name,
        class: ObjectClass::StorageFolder,
        resource: None,
    }
}

/// A file as it is listed.
pub open spec fn file_object(id: Seq<char>, parent_id: Seq<char>, f: Scanned, base: Seq<char>) -> Object {
    Object {
        id,
        parent_id,
        title: label_of(f),
        class: ObjectClass::VideoItem,
        resource: Some(
            (base + "/dlna/stream/"@ + id, media_type(f.container, f.extension), Some(f.size)),
        ),
    }
}

fn folder(d: &DirNode) -> (r: DidlObject)
    ensures
        r.content() == folder_object(d.content()),
{
    DidlObject {
        id: d.id.clone(),
        parent_id: d.parent_id.clone(),
        title: d.name.clone(),
        class: ObjectClass::StorageFolder,
        resource: None,
    }
}

fn file_item(id: &str, parent_id: &str, f: &ScannedFile, base_url: &str) -> (r: DidlObject)
    ensures
        r.content() == file_object(id@, parent_id@, f.content(), base_url@),
{
    let mut url = owned(base_url);
    url.append("/dlna/stream/");
    url.append(id);
    DidlObject {
        id: owned(id),
        parent_id: owned(parent_id),
        title: f.label(),
        class: object_class_for(f.container),
        resource: Some(
            DidlResource {
                url,
                mime_type: owned(content_type_for(f.container, opt_borrow(&f.extension))),
                size_bytes: Some(f.size),
            },
        ),
    }
}

/// The files at positions, as they are listed below one directory. A position past the playable
/// files is passed over.
pub open spec fn file_objects(
    t: Tree,
    played: Seq<Scanned>,
    at: Seq<int>,
    parent_id: Seq<char>,
    base: Seq<char>,
) -> Seq<Object>
    decreases at.len(),
{
    if at.len() == 0 {
        Seq::empty()
    } else {
        let rest = file_objects(t, played, at.drop_last(), parent_id, base);
        let i = at.last();
        if 0 <= i < played.len() {
            rest.push(file_object(t.files[i].id, parent_id, played[i], base))
        } else {
            rest
        }
    }
}

/// What lies directly in a directory: its directories, then its files.
pub open spec fn children(t: Tree, played: Seq<Scanned>, d: int, base: Seq<char>) -> Seq<Object> {
    Seq::new(
        t.dirs[d].child_dirs.len(),
        |k: int| folder_object(t.dirs[t.dirs[d].child_dirs[k]]),
    ) + file_objects(t, played, t.dirs[d].child_files, t.dirs[d].id, base)
}

/// The part of a list that begins at `start` and has at most `count` elements; a count of zero asks
/// for all.
pub open spec fn page<A>(s: Seq<A>, start: int, count: int) -> Seq<A> {
    if start >= s.len() {
        Seq::empty()
    } else if count == 0 || start + count > s.len() {
        s.skip(start)
    } else {
        s.subrange(start, start + count)
    }
}

/// Whether children or the object itself are asked for.
#[derive(Debug, Clone, Copy, PartialEq, Eq, Structural)]
pub enum BrowseFlag {
    Metadata,
    DirectChildren,
}

/// A request to browse.
#[derive(Debug, Clone, PartialEq)]
pub struct BrowseRequest {
    pub object_id: String,
    pub flag: BrowseFlag,
    pub starting_index: u32,
    pub requested_count: u32,
}

/// Why a control request is refused.
#[derive(Debug, Clone, Copy, PartialEq, Eq)]
pub struct Fault {
    pub code: u32,
    pub description: &'static str,
}

/// Part of a listing, how many objects the whole listing has, and the number of the library that it
/// was taken from.
#[derive(Debug, Clone, PartialEq)]
pub struct Listing {
    pub objects: Vec<DidlObject>,
    pub total: usize,
    pub update_id: u32,
}

/// What browsing gives: the objects asked for and how many there are in all, or the code of a fault.
pub open spec fn browsed(
    t: Tree,
    played: Seq<Scanned>,
    id: Seq<char>,
    flag: BrowseFlag,
    start: int,
    count: int,
    base: Seq<char>,
) -> Result<(Seq<Object>, nat), nat> {
    let d = dir_at(t.dirs, id);
    match flag {
        BrowseFlag::DirectChildren => if d < 0 {
            Err(701)
        } else {
            let all = children(t, played, d, base);
            Ok((page(all, start, count), all.len()))
        },
        BrowseFlag::Metadata => if id == "0"@ {
            Ok(
                (
                    seq![
                        Object {
                            id: "0"@,
                            parent_id: "-1"@,
                            title: "lumen"@,
                            class: ObjectClass::StorageFolder,
                            resource: None,
                        },
                    ],
                    1,
                ),
            )
        } else if d >= 0 {
            Ok((seq![folder_object(t.dirs[d])], 1))
        } else {
            let i = leaf_at(t.files, id);
            if 0 <= i < played.len() {
                Ok(
                    (
                        seq![
                            file_object(t.files[i].id, t.files[i].parent_id, played[i], base),
                        ],
                        1,
                    ),
                )
            } else {
                Err(701)
            }
        },
    }
}

/// The whole answer to a request to browse; a request that could not be read is a fault too.
pub open spec fn browse_answer(
    t: Tree,
    played: Seq<Scanned>,
    req: Option<&BrowseRequest>,
    base: Seq<char>,
) -> Result<(Seq<Object>, nat), nat> {
    match req {
        None => Err(402),
        Some(r) => browsed(
            t,
            played,
            r.object_id@,
            r.flag,
            r.starting_index as int,
            r.requested_count as int,
            base,
        ),
    }
}

/// The description that goes with a fault's code.
pub open spec fn fault_text(code: nat) -> Seq<char> {
    if code == 401 {
        "Invalid Action"@
    } else if code == 402 {
        "Invalid Args"@
    } else if code == 701 {
        "No such object"@
    } else {
        "Unsupported or invalid search criteria"@
    }
}

fn files_of(
    tree: &LibraryTree,
    files: &Vec<&ScannedFile>,
    at: &Vec<usize>,
    parent_id: &str,
    base_url: &str,
    out: &mut Vec<DidlObject>,
)
    requires
        forall|k: int| 0 <= k < at@.len() ==> #[trigger] at@[k] < tree.files@.len(),
    ensures
        objects_view(final(out)@) == objects_view(old(out)@) + file_objects(
            tree.content(),
            Seq::new(files@.len(), |i: int| files@[i].content()),
            positions(at@),
            parent_id@,
            base_url@,
        ),
{
    let ghost start = objects_view(out@);
    let ghost all = positions(at@);
    let ghost known = Seq::new(files@.len(), |i: int| files@[i].content());
    let mut k: usize = 0;
    assert(all.take(0) =~= Seq::<int>::empty());
    assert(start + Seq::<Object>::empty() =~= start);
    while k < at.len()
        invariant
            k <= at@.len(),
            all == positions(at@),
            known == Seq::new(files@.len(), |i: int| files@[i].content()),
            forall|j: int| 0 <= j < at@.len() ==> #[trigger] at@[j] < tree.files@.len(),
            objects_view(out@) == start + file_objects(
                tree.content(),
                known,
                all.take(k as int),
                parent_id@,
                base_url@,
            ),
        decreases at@.len() - k,
    {
        let i: usize = at[k];
        let ghost had = objects_view(out@);
        proof {
            assert(all.take(k as int + 1).drop_last() =~= all.take(k as int));
            assert(all.take(k as int + 1).last() == i as int);
            assert(at@[k as int] < tree.files@.len());
        }
        if i < files.len() {
            let item = file_item(tree.file_id(i), parent_id, files[i], base_url);
            let ghost c = item.content();
            out.push(item);
            assert(objects_view(out@) =~= had.push(c));
            assert(objects_view(out@) =~= start + file_objects(
                tree.content(),
                known,
                all.take(k as int + 1),
                parent_id@,
                base_url@,
            ));
        }
        k += 1;
    }
    assert(all.take(k as int) =~= all);
}

fn copy_object(o: &DidlObject) -> (r: DidlObject)
    ensures
        r.content() == o.content(),
{
    DidlObject {
        id: o.id.clone(),
        parent_id: o.parent_id.clone(),
        title: o.title.clone(),
        class: o.class,
        resource: match &o.resource {
            Some(x) => Some(
                DidlResource {
                    url: x.url.clone(),
                    mime_type: x.mime_type.clone(),
                    size_bytes: x.size_bytes,
                },
            ),
            None => None,
        },
    }
}

/// The first and the past-the-last position of a page.
fn page_bounds(total: usize, start: u32, count: u32) -> (r: (usize, usize))
    ensures
        r.0 <= r.1 <= total,
        start >= total ==> r.0 == r.1,
        start < total ==> r.0 == start && r.1 == (if count == 0 || start + count > total {
            total as int
        } else {
            start + count
        }),
{
    let from: usize = if (start as u64) >= (total as u64) {
        total
    } else {
        start as usize
    };
    let to: usize = if count == 0 || (total - from) as u64 <= count as u64 {
        total
    } else {
        from + count as usize
    };
    (from, to)
}

/// Answers a request to browse. The directories of a directory come before its files, and a page is
/// cut out of both together.
pub fn handle_browse(
    library: &Snapshot,
    browse: Option<&BrowseRequest>,
    base_url: &str,
) -> (r: Result<Listing, Fault>)
    requires
        library.consistent(),
    ensures
        match browse_answer(
            library.tree.content(),
            played(library.scan.content().files),
            browse,
            base_url@,
        ) {
            Ok((objects, total)) => match r {
                Ok(l) => objects_view(l.objects@) == objects && l.total == total && l.update_id
                    == library.system_update_id,
                Err(_) => false,
            },
            Err(code) => match r {
                Ok(_) => false,
                Err(f) => f.code == code && f.description@ == fault_text(code),
            },
        },
{
    let req = match browse {
        Some(b) => b,
        None => {
            return Err(Fault { code: 402, description: "Invalid Args" });
        },
    };
    let tree = &library.tree;
    let update_id: u32 = library.system_update_id;
    let files = library.scan.playable();
    let ghost known = played(library.scan.content().files);
    assert(Seq::new(files@.len(), |i: int| files@[i].content()) == known);
    let ghost t = tree.content();
    let found = tree.dir_by_id(req.object_id.as_str());
    match req.flag {
        BrowseFlag::DirectChildren => {
            let d: usize = match found {
                Some(d) => d,
                None => {
                    return Err(Fault { code: 701, description: "No such object" });
                },
            };
            let dir = &tree.dirs[d];
            assert(t.dirs[d as int] == dir.content());
            let mut all: Vec<DidlObject> = Vec::new();
            let mut k: usize = 0;
            let ghost folders = Seq::new(
                t.dirs[d as int].child_dirs.len(),
                |k: int| folder_object(t.dirs[t.dirs[d as int].child_dirs[k]]),
            );
            assert(objects_view(all@) =~= folders.take(0));
            while k < dir.child_dirs.len()
                invariant
                    k <= dir.child_dirs@.len(),
                    t == tree.content(),
                    points_inside(t),
                    d < tree.dirs@.len(),
                    *dir == tree.dirs@[d as int],
                    t.dirs[d as int] == dir.content(),
                    folders == Seq::new(
                        t.dirs[d as int].child_dirs.len(),
                        |k: int| folder_object(t.dirs[t.dirs[d as int].child_dirs[k]]),
                    ),
                    objects_view(all@) == folders.take(k as int),
                decreases dir.child_dirs@.len() - k,
            {
                let at: usize = dir.child_dirs[k];
                let ghost had = objects_view(all@);
                assert(t.dirs[d as int].child_dirs[k as int] == at as int);
                let item = folder(&tree.dirs[at]);
                let ghost c = item.content();
                assert(t.dirs[at as int] == tree.dirs@[at as int].content());
                all.push(item);
                k += 1;
                assert(objects_view(all@) =~= had.push(c));
                assert(objects_view(all@) =~= folders.take(k as int));
            }
            assert(folders.take(k as int) =~= folders);
            assert forall|j: int| 0 <= j < dir.child_files@.len() implies #[trigger] dir.child_files@[j]
                < tree.files@.len() by {
                assert(t.dirs[d as int].child_files[j] == dir.child_files@[j] as int);
            }
            files_of(tree, &files, &dir.child_files, dir.id.as_str(), base_url, &mut all);
            let ghost whole = objects_view(all@);
            assert(whole == children(t, known, d as int, base_url@));
            let total: usize = all.len();
            let (from, to): (usize, usize) = page_bounds(
                total,
                req.starting_index,
                req.requested_count,
            );
            let mut objects: Vec<DidlObject> = Vec::new();
            let mut i: usize = from;
            assert(objects_view(objects@) =~= whole.subrange(from as int, from as int));
            while i < to
                invariant
                    from <= i <= to <= all@.len(),
                    whole == objects_view(all@),
                    objects_view(objects@) == whole.subrange(from as int, i as int),
                decreases to - i,
            {
                let ghost had = objects_view(objects@);
                let item = copy_object(&all[i]);
                let ghost c = item.content();
                assert(whole[i as int] == c);
                objects.push(item);
                i += 1;
                assert(objects_view(objects@) =~= had.push(c));
                assert(objects_view(objects@) =~= whole.subrange(from as int, i as int));
            }
            assert(objects_view(objects@) =~= page(
                whole,
                req.starting_index as int,
                req.requested_count as int,
            ));
            Ok(Listing { objects, total, update_id })
        },
        BrowseFlag::Metadata => {
            if same(req.object_id.as_str(), "0") {
                let objects = vec![
                    DidlObject {
                        id: owned("0"),
                        parent_id: owned("-1"),
                        title: owned("lumen"),
                        class: ObjectClass::StorageFolder,
                        resource: None,
                    },
                ];
                assert(objects_view(objects@) =~= seq![
                    Object {
                        id: "0"@,
                        parent_id: "-1"@,
                        title: "lumen"@,
                        class: ObjectClass::StorageFolder,
                        resource: None,
                    },
                ]);
                return Ok(Listing { objects, total: 1, update_id });
            }
            match found {
                Some(d) => {
                    assert(t.dirs[d as int] == tree.dirs@[d as int].content());
                    let objects = vec![folder(&tree.dirs[d])];
                    assert(objects_view(objects@) =~= seq![folder_object(t.dirs[d as int])]);
                    Ok(Listing { objects, total: 1, update_id })
                },
                None => {
                    match tree.file_position(req.object_id.as_str()) {
                        Some(i) => {
                            if i < files.len() {
                                assert(t.files[i as int] == tree.files@[i as int].content());
                                let leaf = &tree.files[i];
                                let objects = vec![
                                    file_item(
                                        leaf.id.as_str(),
                                        leaf.parent_id.as_str(),
                                        files[i],
                                        base_url,
                                    ),
                                ];
                                assert(objects_view(objects@) =~= seq![
                                    file_object(
                                        t.files[i as int].id,
                                        t.files[i as int].parent_id,
                                        known[i as int],
                                        base_url@,
                                    ),
                                ]);
                                Ok(Listing { objects, total: 1, update_id })
                            } else {
                                Err(Fault { code: 701, description: "No such object" })
                            }
                        },
                        None => Err(Fault { code: 701, description: "No such object" }),
                    }
                },
            }
        },
    }
}

/// The positions of all files at any depth below the directory at `d`: its own files first, then
/// those of each directory in turn.
pub open spec fn files_under(t: Tree, d: int) -> Seq<int>
    decreases t.dirs.len() - d, 1int, 0int,
{
    if d < 0 || d >= t.dirs.len() {
        Seq::empty()
    } else {
        t.dirs[d].child_files + files_below(t, d, t.dirs[d].child_dirs.len())
    }
}

/// The positions of all files below the first `k` directories of the directory at `d`.
pub open spec fn files_below(t: Tree, d: int, k: nat) -> Seq<int>
    decreases t.dirs.len() - d, 0int, k,
{
    if d < 0 || d >= t.dirs.len() || k == 0 || k > t.dirs[d].child_dirs.len() {
        Seq::empty()
    } else {
        let c = t.dirs[d].child_dirs[k - 1];
        files_below(t, d, (k - 1) as nat) + (if d < c < t.dirs.len() {
            files_under(t, c)
        } else {
            Seq::empty()
        })
    }
}

fn collect_dir_files_recursive(tree: &LibraryTree, d: usize, out: &mut Vec<usize>)
    requires
        points_inside(tree.content()),
        d < tree.dirs@.len(),
    ensures
        positions(final(out)@) == positions(old(out)@) + files_under(tree.content(), d as int),
    decreases tree.dirs@.len() - d,
{
    let ghost t = tree.content();
    let ghost start = positions(out@);
    let dir = &tree.dirs[d];
    assert(t.dirs[d as int] == dir.content());
    let ghost own = positions(dir.child_files@);
    let mut i: usize = 0;
    assert(start + own.take(0) =~= start);
    while i < dir.child_files.len()
        invariant
            i <= dir.child_files@.len(),
            own == positions(dir.child_files@),
            positions(out@) == start + own.take(i as int),
        decreases dir.child_files@.len() - i,
    {
        let ghost had = positions(out@);
        out.push(dir.child_files[i]);
        i += 1;
        assert(positions(out@) =~= had.push(own[i - 1]));
        assert(positions(out@) =~= start + own.take(i as int));
    }
    assert(own.take(i as int) =~= own);
    let ghost mid = positions(out@);
    let mut k: usize = 0;
    assert(mid + files_below(t, d as int, 0) =~= mid);
    while k < dir.child_dirs.len()
        invariant
            k <= dir.child_dirs@.len(),
            t == tree.content(),
            points_inside(t),
            d < tree.dirs@.len(),
            *dir == tree.dirs@[d as int],
            t.dirs[d as int] == dir.content(),
            positions(out@) == mid + files_below(t, d as int, k as nat),
        decreases dir.child_dirs@.len() - k,
    {
        let c: usize = dir.child_dirs[k];
        assert(t.dirs[d as int].child_dirs[k as int] == c as int);
        let ghost had = files_below(t, d as int, k as nat);
        collect_dir_files_recursive(tree, c, out);
        assert(positions(out@) =~= mid + (had + files_under(t, c as int)));
        k += 1;
    }
    assert(positions(out@) =~= start + files_under(t, d as int));
}

/// The positions of all files at any depth below the directory with an id; none when there is no
/// such directory.
pub fn collect_file_indices_recursive(tree: &LibraryTree, container_id: &str) -> (r: Vec<usize>)
    requires
        points_inside(tree.content()),
    ensures
        positions(r@) == files_under(
            tree.content(),
            dir_at(tree.content().dirs, container_id@),
        ),
{
    let mut out: Vec<usize> = Vec::new();
    assert(positions(out@) =~= Seq::<int>::empty());
    match tree.dir_by_id(container_id) {
        Some(d) => {
            collect_dir_files_recursive(tree, d, &mut out);
            assert(positions(out@) =~= files_under(
                tree.content(),
                dir_at(tree.content().dirs, container_id@),
            ));
        },
        None => {},
    }
    out
}

/// What a search asks for.
#[derive(Debug, Clone, PartialEq)]
pub enum SearchCriteria {
    MatchAll,
    TitleContains(String),
    Unsupported,
}

/// A request to search.
#[derive(Debug, Clone, PartialEq)]
pub struct SearchRequest {
    pub container_id: String,
    pub criteria: SearchCriteria,
    pub starting_index: u32,
    pub requested_count: u32,
}

/// Those of the files at positions whose label holds a text, letter case aside.
pub open spec fn titled(played: Seq<Scanned>, at: Seq<int>, needle: Seq<char>) -> Seq<int>
    decreases at.len(),
{
    if at.len() == 0 {
        Seq::empty()
    } else {
        let rest = titled(played, at.drop_last(), needle);
        let i = at.last();
        if 0 <= i < played.len() && occurs(lower(label_of(played[i])), lower(needle)) {
            rest.push(i)
        } else {
            rest
        }
    }
}

/// The files at positions, each as it is listed below its own directory.
pub open spec fn found_objects(
    t: Tree,
    played: Seq<Scanned>,
    at: Seq<int>,
    base: Seq<char>,
) -> Seq<Object>
    decreases at.len(),
{
    if at.len() == 0 {
        Seq::empty()
    } else {
        let rest = found_objects(t, played, at.drop_last(), base);
        let i = at.last();
        if 0 <= i < played.len() {
            rest.push(file_object(t.files[i].id, t.files[i].parent_id, played[i], base))
        } else {
            rest
        }
    }
}

/// The whole answer to a request to search: files only, at any depth below the directory asked
/// about, each with its own parent.
pub open spec fn search_answer(
    t: Tree,
    played: Seq<Scanned>,
    req: Option<&SearchRequest>,
    base: Seq<char>,
) -> Result<(Seq<Object>, nat), nat> {
    match req {
        None => Err(402),
        Some(r) => {
            let d = dir_at(t.dirs, r.container_id@);
            if d < 0 {
                Err(701)
            } else {
                match r.criteria {
                    SearchCriteria::Unsupported => Err(708),
                    SearchCriteria::MatchAll => {
                        let all = files_under(t, d);
                        Ok(
                            (
                                found_objects(
                                    t,
                                    played,
                                    page(all, r.starting_index as int, r.requested_count as int),
                                    base,
                                ),
                                all.len(),
                            ),
                        )
                    },
                    SearchCriteria::TitleContains(text) => {
                        let all = titled(played, files_under(t, d), text@);
                        Ok(
                            (
                                found_objects(
                                    t,
                                    played,
                                    page(all, r.starting_index as int, r.requested_count as int),
                                    base,
                                ),
                                all.len(),
                            ),
                        )
                    },
                }
            }
        },
    }
}

proof fn under_points_inside(t: Tree, d: int)
    requires
        points_inside(t),
        0 <= d < t.dirs.len(),
    ensures
        forall|i: int|
            0 <= i < files_under(t, d).len() ==> 0 <= #[trigger] files_under(t, d)[i]
                < t.files.len(),
    decreases t.dirs.len() - d, 1int, 0int,
{
    let own = t.dirs[d].child_files;
    let n = t.dirs[d].child_dirs.len();
    below_points_inside(t, d, n);
    let all = files_under(t, d);
    assert forall|i: int| 0 <= i < all.len() implies 0 <= #[trigger] all[i] < t.files.len() by {
        if i < own.len() {
            assert(all[i] == t.dirs[d].child_files[i]);
        } else {
            assert(all[i] == files_below(t, d, n)[i - own.len()]);
        }
    }
}

proof fn below_points_inside(t: Tree, d: int, k: nat)
    requires
        points_inside(t),
        0 <= d < t.dirs.len(),
        k <= t.dirs[d].child_dirs.len(),
    ensures
        forall|i: int|
            0 <= i < files_below(t, d, k).len() ==> 0 <= #[trigger] files_below(t, d, k)[i]
                < t.files.len(),
    decreases t.dirs.len() - d, 0int, k,
{
    if k > 0 {
        below_points_inside(t, d, (k - 1) as nat);
        let c = t.dirs[d].child_dirs[k - 1];
        under_points_inside(t, c);
        let head = files_below(t, d, (k - 1) as nat);
        let all = files_below(t, d, k);
        assert forall|i: int| 0 <= i < all.len() implies 0 <= #[trigger] all[i] < t.files.len() by {
            if i < head.len() {
                assert(all[i] == head[i]);
            } else {
                assert(all[i] == files_under(t, c)[i - head.len()]);
            }
        }
    }
}

/// Whether the file at a position is among the files of a directory.
pub open spec fn file_has_home(t: Tree, p: int) -> bool {
    exists|i: int| 0 <= i < t.dirs.len() && (#[trigger] t.dirs[i]).child_files.contains(p)
}

/// Whether the directory at a position is among the directories of a directory.
pub open spec fn dir_has_home(t: Tree, c: int) -> bool {
    exists|i: int| 0 <= i < t.dirs.len() && (#[trigger] t.dirs[i]).child_dirs.contains(c)
}

/// Whether every file is among the files of exactly one directory, and there once: the one whose id
/// is the file's parent.
pub open spec fn files_homed(t: Tree) -> bool {
    &&& forall|i: int, k: int|
        0 <= i < t.dirs.len() && 0 <= k < t.dirs[i].child_files.len() ==> {
            let p = #[trigger] t.dirs[i].child_files[k];
            0 <= p < t.files.len() && t.files[p].parent_id == t.dirs[i].id
        }
    &&& forall|i: int, k: int, j: int, l: int|
        0 <= i < t.dirs.len() && 0 <= k < t.dirs[i].child_files.len() && 0 <= j < t.dirs.len() && 0
            <= l < t.dirs[j].child_files.len() && #[trigger] t.dirs[i].child_files[k]
            == #[trigger] t.dirs[j].child_files[l] ==> i == j && k == l
    &&& forall|p: int| 0 <= p < t.files.len() ==> #[trigger] file_has_home(t, p)
}

/// Whether every directory but the root is among the directories of exactly one directory, and there
/// once: the one whose id is its parent, one name above it.
pub open spec fn dirs_homed(t: Tree) -> bool {
    &&& forall|i: int, k: int|
        0 <= i < t.dirs.len() && 0 <= k < t.dirs[i].child_dirs.len() ==> {
            let c = #[trigger] t.dirs[i].child_dirs[k];
            &&& i < c < t.dirs.len()
            &&& t.dirs[c].parent_id == t.dirs[i].id
            &&& t.dirs[c].rel.len() > 0
            &&& t.dirs[c].rel.drop_last() == t.dirs[i].rel
        }
    &&& forall|i: int, k: int, j: int, l: int|
        0 <= i < t.dirs.len() && 0 <= k < t.dirs[i].child_dirs.len() && 0 <= j < t.dirs.len() && 0
            <= l < t.dirs[j].child_dirs.len() && #[trigger] t.dirs[i].child_dirs[k]
            == #[trigger] t.dirs[j].child_dirs[l] ==> i == j && k == l
    &&& forall|c: int| 0 < c < t.dirs.len() ==> #[trigger] dir_has_home(t, c)
}

proof fn with_dir_homes(t: Tree, prev: Option<Tree>, rel: Seq<Seq<char>>, parent: int)
    requires
        files_homed(t),
        dirs_homed(t),
        0 <= parent < t.dirs.len(),
        rel.len() > 0,
        rel.drop_last() == t.dirs[parent].rel,
    ensures
        files_homed(with_dir(t, prev, rel, parent)),
        dirs_homed(with_dir(t, prev, rel, parent)),
{
    let u = with_dir(t, prev, rel, parent);
    let n = t.dirs.len() as int;
    let last = t.dirs[parent].child_dirs.len() as int;
    assert forall|i: int| 0 <= i < n implies u.dirs[i].id == t.dirs[i].id && u.dirs[i].parent_id
        == t.dirs[i].parent_id && u.dirs[i].rel == t.dirs[i].rel && u.dirs[i].child_files
        == t.dirs[i].child_files by {}
    assert(u.files == t.files);
    assert forall|i: int, k: int|
        0 <= i < u.dirs.len() && 0 <= k < u.dirs[i].child_files.len() implies {
        let p = #[trigger] u.dirs[i].child_files[k];
        0 <= p < u.files.len() && u.files[p].parent_id == u.dirs[i].id
    } by {
        assert(i < n);
        assert(t.dirs[i].child_files[k] == u.dirs[i].child_files[k]);
    }
    assert forall|i: int, k: int, j: int, l: int|
        0 <= i < u.dirs.len() && 0 <= k < u.dirs[i].child_files.len() && 0 <= j < u.dirs.len() && 0
            <= l < u.dirs[j].child_files.len() && #[trigger] u.dirs[i].child_files[k]
            == #[trigger] u.dirs[j].child_files[l] implies i == j && k == l by {
        assert(i < n && j < n);
        assert(t.dirs[i].child_files[k] == t.dirs[j].child_files[l]);
    }
    assert forall|p: int| 0 <= p < u.files.len() implies #[trigger] file_has_home(u, p) by {
        assert(file_has_home(t, p));
        let i = choose|i: int|
            0 <= i < t.dirs.len() && (#[trigger] t.dirs[i]).child_files.contains(p);
        assert(u.dirs[i].child_files.contains(p));
    }
    assert forall|i: int, k: int|
        0 <= i < u.dirs.len() && 0 <= k < u.dirs[i].child_dirs.len() implies {
        let c = #[trigger] u.dirs[i].child_dirs[k];
        &&& i < c < u.dirs.len()
        &&& u.dirs[c].parent_id == u.dirs[i].id
        &&& u.dirs[c].rel.len() > 0
        &&& u.dirs[c].rel.drop_last() == u.dirs[i].rel
    } by {
        assert(i < n);
        if i == parent && k == last {
            assert(u.dirs[i].child_dirs[k] == n);
        } else {
            assert(t.dirs[i].child_dirs[k] == u.dirs[i].child_dirs[k]);
        }
    }
    assert forall|i: int, k: int, j: int, l: int|
        0 <= i < u.dirs.len() && 0 <= k < u.dirs[i].child_dirs.len() && 0 <= j < u.dirs.len() && 0
            <= l < u.dirs[j].child_dirs.len() && #[trigger] u.dirs[i].child_dirs[k]
            == #[trigger] u.dirs[j].child_dirs[l] implies i == j && k == l by {
        assert(i < n && j < n);
        let new_i = i == parent && k == last;
        let new_j = j == parent && l == last;
        if !new_i {
            assert(t.dirs[i].child_dirs[k] == u.dirs[i].child_dirs[k]);
        }
        if !new_j {
            assert(t.dirs[j].child_dirs[l] == u.dirs[j].child_dirs[l]);
        }
    }
    assert forall|c: int| 0 < c < u.dirs.len() implies #[trigger] dir_has_home(u, c) by {
        if c == n {
            assert(u.dirs[parent].child_dirs[last] == c);
            assert(u.dirs[parent].child_dirs.contains(c));
        } else {
            assert(dir_has_home(t, c));
            let i = choose|i: int|
                0 <= i < t.dirs.len() && (#[trigger] t.dirs[i]).child_dirs.contains(c);
            let k = choose|k: int|
                0 <= k < t.dirs[i].child_dirs.len() && t.dirs[i].child_dirs[k] == c;
            assert(u.dirs[i].child_dirs[k] == c);
            assert(u.dirs[i].child_dirs.contains(c));
        }
    }
}

proof fn descended_homes(
    t: Tree,
    prev: Option<Tree>,
    names: Seq<Seq<char>>,
    k: int,
    parent: int,
)
    requires
        files_homed(t),
        dirs_homed(t),
        0 <= k <= names.len(),
        0 <= parent < t.dirs.len(),
        t.dirs[parent].rel == names.take(k),
    ensures
        ({
            let (u, at) = descended(t, prev, names, k, parent);
            files_homed(u) && dirs_homed(u) && 0 <= at < u.dirs.len()
        }),
    decreases names.len() - k,
{
    if k < names.len() {
        let rel = names.take(k + 1);
        find_dir_is_there(t.dirs, rel);
        assert(rel.drop_last() =~= names.take(k));
        let at = find_dir(t.dirs, rel);
        if at >= 0 {
            descended_homes(t, prev, names, k + 1, at);
        } else {
            with_dir_homes(t, prev, rel, parent);
            descended_homes(
                with_dir(t, prev, rel, parent),
                prev,
                names,
                k + 1,
                t.dirs.len() as int,
            );
        }
    }
}

proof fn with_leaf_homes(t: Tree, prev: Option<Tree>, path: Seq<char>, root: Seq<char>)
    requires
        files_homed(t),
        dirs_homed(t),
        t.dirs.len() > 0,
        t.dirs[0].rel.len() == 0,
    ensures
        files_homed(with_leaf(t, prev, path, root)),
        dirs_homed(with_leaf(t, prev, path, root)),
{
    let names = dir_names(path, root);
    assert(names.take(0) =~= t.dirs[0].rel);
    descended_homes(t, prev, names, 0, 0);
    let (u, at) = descended(t, prev, names, 0, 0);
    let w = with_leaf(t, prev, path, root);
    let n = u.files.len() as int;
    let last = u.dirs[at].child_files.len() as int;
    assert forall|i: int| 0 <= i < u.dirs.len() implies w.dirs[i].id == u.dirs[i].id
        && w.dirs[i].parent_id == u.dirs[i].parent_id && w.dirs[i].rel == u.dirs[i].rel
        && w.dirs[i].child_dirs == u.dirs[i].child_dirs by {}
    assert forall|i: int, k: int|
        0 <= i < w.dirs.len() && 0 <= k < w.dirs[i].child_files.len() implies {
        let p = #[trigger] w.dirs[i].child_files[k];
        0 <= p < w.files.len() && w.files[p].parent_id == w.dirs[i].id
    } by {
        if i == at && k == last {
            assert(w.dirs[i].child_files[k] == n);
        } else {
            assert(u.dirs[i].child_files[k] == w.dirs[i].child_files[k]);
            assert(w.files[u.dirs[i].child_files[k]] == u.files[u.dirs[i].child_files[k]]);
        }
    }
    assert forall|i: int, k: int, j: int, l: int|
        0 <= i < w.dirs.len() && 0 <= k < w.dirs[i].child_files.len() && 0 <= j < w.dirs.len() && 0
            <= l < w.dirs[j].child_files.len() && #[trigger] w.dirs[i].child_files[k]
            == #[trigger] w.dirs[j].child_files[l] implies i == j && k == l by {
        if !(i == at && k == last) {
            assert(u.dirs[i].child_files[k] == w.dirs[i].child_files[k]);
        }
        if !(j == at && l == last) {
            assert(u.dirs[j].child_files[l] == w.dirs[j].child_files[l]);
        }
    }
    assert forall|p: int| 0 <= p < w.files.len() implies #[trigger] file_has_home(w, p) by {
        if p == n {
            assert(w.dirs[at].child_files[last] == p);
            assert(w.dirs[at].child_files.contains(p));
        } else {
            assert(file_has_home(u, p));
            let i = choose|i: int|
                0 <= i < u.dirs.len() && (#[trigger] u.dirs[i]).child_files.contains(p);
            let k = choose|k: int|
                0 <= k < u.dirs[i].child_files.len() && u.dirs[i].child_files[k] == p;
            assert(w.dirs[i].child_files[k] == p);
            assert(w.dirs[i].child_files.contains(p));
        }
    }
    assert forall|i: int, k: int|
        0 <= i < w.dirs.len() && 0 <= k < w.dirs[i].child_dirs.len() implies {
        let c = #[trigger] w.dirs[i].child_dirs[k];
        &&& i < c < w.dirs.len()
        &&& w.dirs[c].parent_id == w.dirs[i].id
        &&& w.dirs[c].rel.len() > 0
        &&& w.dirs[c].rel.drop_last() == w.dirs[i].rel
    } by {
        assert(u.dirs[i].child_dirs[k] == w.dirs[i].child_dirs[k]);
    }
    assert forall|i: int, k: int, j: int, l: int|
        0 <= i < w.dirs.len() && 0 <= k < w.dirs[i].child_dirs.len() && 0 <= j < w.dirs.len() && 0
            <= l < w.dirs[j].child_dirs.len() && #[trigger] w.dirs[i].child_dirs[k]
            == #[trigger] w.dirs[j].child_dirs[l] implies i == j && k == l by {
        assert(u.dirs[i].child_dirs[k] == u.dirs[j].child_dirs[l]);
    }
    assert forall|c: int| 0 < c < w.dirs.len() implies #[trigger] dir_has_home(w, c) by {
        assert(dir_has_home(u, c));
        let i = choose|i: int|
            0 <= i < u.dirs.len() && (#[trigger] u.dirs[i]).child_dirs.contains(c);
        assert(w.dirs[i].child_dirs.contains(c));
    }
}

proof fn first_dir_stays(t: Tree, prev: Option<Tree>, names: Seq<Seq<char>>, k: int, parent: int)
    requires
        0 <= parent < t.dirs.len(),
    ensures
        descended(t, prev, names, k, parent).0.dirs.len() >= t.dirs.len(),
        descended(t, prev, names, k, parent).0.dirs[0].rel == t.dirs[0].rel,
        0 <= descended(t, prev, names, k, parent).1,
        descended(t, prev, names, k, parent).1 < descended(t, prev, names, k, parent).0.dirs.len(),
    decreases names.len() - k,
{
    if 0 <= k < names.len() {
        let rel = names.take(k + 1);
        find_dir_is_there(t.dirs, rel);
        let at = find_dir(t.dirs, rel);
        if at >= 0 {
            first_dir_stays(t, prev, names, k + 1, at);
        } else {
            first_dir_stays(
                with_dir(t, prev, rel, parent),
                prev,
                names,
                k + 1,
                t.dirs.len() as int,
            );
        }
    }
}

proof fn root_stays(files: Seq<Scanned>, n: nat, root: Seq<char>, prev: Option<Tree>)
    requires
        n <= files.len(),
    ensures
        built(files, n, root, prev).dirs.len() > 0,
        built(files, n, root, prev).dirs[0].rel.len() == 0,
    decreases n,
{
    if n > 0 {
        root_stays(files, (n - 1) as nat, root, prev);
        if files[n - 1].playable() {
            first_dir_stays(
                built(files, (n - 1) as nat, root, prev),
                prev,
                dir_names(files[n - 1].path, root),
                0,
                0,
            );
        }
    }
}

/// However a library changes, everything in its tree has one place: each file is among the files of
/// exactly one directory, the one whose id is its parent, and each directory but the root among the
/// directories of exactly one.
pub proof fn everything_has_one_place(
    files: Seq<Scanned>,
    n: nat,
    root: Seq<char>,
    prev: Option<Tree>,
)
    requires
        n <= files.len(),
    ensures
        files_homed(built(files, n, root, prev)),
        dirs_homed(built(files, n, root, prev)),
    decreases n,
{
    if n > 0 {
        everything_has_one_place(files, (n - 1) as nat, root, prev);
        if files[n - 1].playable() {
            let t = built(files, (n - 1) as nat, root, prev);
            root_stays(files, (n - 1) as nat, root, prev);
            with_leaf_homes(t, prev, files[n - 1].path, root);
        }
    }
}

/// Whether the directory at `i` is the one at `d` or lies below it.
pub open spec fn is_within(t: Tree, d: int, i: int) -> bool {
    t.dirs[d].rel.is_prefix_of(t.dirs[i].rel)
}

/// What lies under a directory lies under the directory above it.
proof fn child_is_under(t: Tree, d: int, k: int, m: nat)
    requires
        dirs_homed(t),
        0 <= d < t.dirs.len(),
        0 <= k < m <= t.dirs[d].child_dirs.len(),
    ensures
        forall|p: int|
            files_under(t, t.dirs[d].child_dirs[k]).contains(p) ==> #[trigger] files_below(
                t,
                d,
                m,
            ).contains(p),
    decreases m,
{
    let below = files_below(t, d, m);
    let head = files_below(t, d, (m - 1) as nat);
    let c = t.dirs[d].child_dirs[m - 1];
    let tail = files_under(t, c);
    assert(below == head + tail);
    if k < m - 1 {
        child_is_under(t, d, k, (m - 1) as nat);
    }
    assert forall|p: int| files_under(t, t.dirs[d].child_dirs[k]).contains(
        p,
    ) implies #[trigger] below.contains(p) by {
        if k < m - 1 {
            assert(head.contains(p));
            let x = choose|x: int| 0 <= x < head.len() && head[x] == p;
            assert(below[x] == p);
        } else {
            let x = choose|x: int| 0 <= x < tail.len() && tail[x] == p;
            assert(below[head.len() + x] == p);
        }
    }
}

/// What lies under a directory lies under every directory that it is within.
proof fn within_is_under(t: Tree, d: int, i: int, p: int)
    requires
        well_formed(t),
        dirs_homed(t),
        0 <= d < t.dirs.len(),
        0 <= i < t.dirs.len(),
        is_within(t, d, i),
        files_under(t, i).contains(p),
    ensures
        files_under(t, d).contains(p),
    decreases i,
{
    let mine = t.dirs[i].rel;
    let above = t.dirs[d].rel;
    if mine.len() == above.len() {
        assert(mine =~= above);
        if i < d {
            assert(t.dirs[i].rel != t.dirs[d].rel);
        } else if d < i {
            assert(t.dirs[d].rel != t.dirs[i].rel);
        }
    } else {
        if i == 0 {
            assert(t.dirs[0].rel.len() == 0);
        }
        assert(dir_has_home(t, i));
        let j = choose|j: int| 0 <= j < t.dirs.len() && (#[trigger] t.dirs[j]).child_dirs.contains(i);
        let k = choose|k: int| 0 <= k < t.dirs[j].child_dirs.len() && t.dirs[j].child_dirs[k] == i;
        assert(t.dirs[j].child_dirs[k] == i);
        let m = t.dirs[j].child_dirs.len();
        child_is_under(t, j, k, m);
        let below = files_below(t, j, m);
        assert(below.contains(p));
        let x = choose|x: int| 0 <= x < below.len() && below[x] == p;
        let own = t.dirs[j].child_files;
        assert(files_under(t, j)[own.len() + x] == p);
        assert(mine.drop_last() == t.dirs[j].rel);
        assert(is_within(t, d, j)) by {
            assert(t.dirs[j].rel.subrange(0, above.len() as int) =~= mine.subrange(
                0,
                above.len() as int,
            ));
        }
        within_is_under(t, d, j, p);
    }
}

/// What lies under a directory is in a directory within it.
proof fn under_is_within(t: Tree, d: int, p: int)
    requires
        dirs_homed(t),
        0 <= d < t.dirs.len(),
        files_under(t, d).contains(p),
    ensures
        exists|i: int|
            0 <= i < t.dirs.len() && is_within(t, d, i) && (
            #[trigger] t.dirs[i]).child_files.contains(p),
    decreases t.dirs.len() - d, 1int, 0int,
{
    let own = t.dirs[d].child_files;
    let m = t.dirs[d].child_dirs.len();
    let below = files_below(t, d, m);
    let x = choose|x: int| 0 <= x < files_under(t, d).len() && files_under(t, d)[x] == p;
    if x < own.len() {
        assert(own[x] == p);
        assert(t.dirs[d].child_files.contains(p));
        assert(is_within(t, d, d)) by {
            assert(t.dirs[d].rel.subrange(0, t.dirs[d].rel.len() as int) =~= t.dirs[d].rel);
        }
    } else {
        assert(below[x - own.len()] == p);
        below_is_within(t, d, m, p);
        let k = choose|k: int|
            0 <= k < m && files_under(t, #[trigger] t.dirs[d].child_dirs[k]).contains(p);
        child_is_within(t, d, k, p);
    }
}

/// What lies below a directory lies under one of its directories.
proof fn below_is_within(t: Tree, d: int, m: nat, p: int)
    requires
        dirs_homed(t),
        0 <= d < t.dirs.len(),
        m <= t.dirs[d].child_dirs.len(),
        files_below(t, d, m).contains(p),
    ensures
        exists|k: int|
            0 <= k < m && files_under(t, #[trigger] t.dirs[d].child_dirs[k]).contains(p),
    decreases m,
{
    let below = files_below(t, d, m);
    let x = choose|x: int| 0 <= x < below.len() && below[x] == p;
    if m > 0 {
        let head = files_below(t, d, (m - 1) as nat);
        let c = t.dirs[d].child_dirs[m - 1];
        if x < head.len() {
            assert(head[x] == p);
            below_is_within(t, d, (m - 1) as nat, p);
        } else {
            assert(files_under(t, c)[x - head.len()] == p);
            assert(files_under(t, t.dirs[d].child_dirs[m - 1]).contains(p));
        }
    }
}

proof fn child_is_within(t: Tree, d: int, k: int, p: int)
    requires
        dirs_homed(t),
        0 <= d < t.dirs.len(),
        0 <= k < t.dirs[d].child_dirs.len(),
        files_under(t, t.dirs[d].child_dirs[k]).contains(p),
    ensures
        exists|i: int|
            0 <= i < t.dirs.len() && is_within(t, t.dirs[d].child_dirs[k], i) && is_within(t, d, i)
                && (#[trigger] t.dirs[i]).child_files.contains(p),
    decreases t.dirs.len() - d, 0int, 0int,
{
    let c = t.dirs[d].child_dirs[k];
    assert(d < c < t.dirs.len());
    under_is_within(t, c, p);
    let i = choose|i: int|
        0 <= i < t.dirs.len() && is_within(t, c, i) && (#[trigger] t.dirs[i]).child_files.contains(p);
    assert(is_within(t, d, i)) by {
        let above = t.dirs[d].rel;
        assert(t.dirs[c].rel.drop_last() == above);
        assert(t.dirs[i].rel.subrange(0, above.len() as int) =~= above) by {
            let mid = t.dirs[c].rel;
            assert(mid =~= t.dirs[i].rel.subrange(0, mid.len() as int));
            assert forall|x: int| 0 <= x < above.len() implies t.dirs[i].rel[x] == above[x] by {
                assert(mid[x] == t.dirs[i].rel.subrange(0, mid.len() as int)[x]);
                assert(mid.drop_last()[x] == mid[x]);
            }
        }
    }
}

/// Nothing is listed twice under a directory.
proof fn under_once(t: Tree, d: int)
    requires
        well_formed(t),
        files_homed(t),
        dirs_homed(t),
        0 <= d < t.dirs.len(),
    ensures
        files_under(t, d).no_duplicates(),
    decreases t.dirs.len() - d, 1int, 0int,
{
    let own = t.dirs[d].child_files;
    let m = t.dirs[d].child_dirs.len();
    let below = files_below(t, d, m);
    let all = files_under(t, d);
    below_once(t, d, m);
    assert forall|x: int, y: int| 0 <= x < y < all.len() implies all[x] != all[y] by {
        if y < own.len() {
            assert(all[x] == t.dirs[d].child_files[x] && all[y] == t.dirs[d].child_files[y]);
        } else if x >= own.len() {
            assert(all[x] == below[x - own.len()] && all[y] == below[y - own.len()]);
        } else {
            assert(all[x] == t.dirs[d].child_files[x]);
            assert(all[y] == below[y - own.len()]);
            if all[x] == all[y] {
                let p = all[x];
                assert(below.contains(p));
                below_is_within(t, d, m, p);
                let k = choose|k: int|
                    0 <= k < m && files_under(t, #[trigger] t.dirs[d].child_dirs[k]).contains(p);
                child_is_within(t, d, k, p);
                let c = t.dirs[d].child_dirs[k];
                let i = choose|i: int|
                    0 <= i < t.dirs.len() && is_within(t, c, i) && is_within(t, d, i) && (
                    #[trigger] t.dirs[i]).child_files.contains(p);
                let l = choose|l: int|
                    0 <= l < t.dirs[i].child_files.len() && t.dirs[i].child_files[l] == p;
                assert(t.dirs[i].child_files[l] == t.dirs[d].child_files[x]);
                assert(i == d);
                assert(t.dirs[c].rel.drop_last() == t.dirs[d].rel);
                assert(t.dirs[c].rel.len() <= t.dirs[d].rel.len());
            }
        }
    }
}

proof fn below_once(t: Tree, d: int, m: nat)
    requires
        well_formed(t),
        files_homed(t),
        dirs_homed(t),
        0 <= d < t.dirs.len(),
        m <= t.dirs[d].child_dirs.len(),
    ensures
        files_below(t, d, m).no_duplicates(),
    decreases t.dirs.len() - d, 0int, m,
{
    if m > 0 {
        let head = files_below(t, d, (m - 1) as nat);
        let c = t.dirs[d].child_dirs[m - 1];
        assert(d < c < t.dirs.len());
        let tail = files_under(t, c);
        let all = files_below(t, d, m);
        assert(all == head + tail);
        below_once(t, d, (m - 1) as nat);
        under_once(t, c);
        assert forall|x: int, y: int| 0 <= x < y < all.len() implies all[x] != all[y] by {
            if y < head.len() {
                assert(all[x] == head[x] && all[y] == head[y]);
            } else if x >= head.len() {
                assert(all[x] == tail[x - head.len()] && all[y] == tail[y - head.len()]);
            } else if all[x] == all[y] {
                let p = all[x];
                assert(head[x] == p && tail[y - head.len()] == p);
                assert(head.contains(p) && tail.contains(p));
                below_is_within(t, d, (m - 1) as nat, p);
                let k = choose|k: int|
                    0 <= k < m - 1 && files_under(t, #[trigger] t.dirs[d].child_dirs[k]).contains(p);
                one_home(t, d, k, m - 1, p);
            }
        }
    }
}

/// A file lies under one only of a directory's directories.
proof fn one_home(t: Tree, d: int, a: int, b: int, p: int)
    requires
        well_formed(t),
        files_homed(t),
        dirs_homed(t),
        0 <= d < t.dirs.len(),
        0 <= a < t.dirs[d].child_dirs.len(),
        0 <= b < t.dirs[d].child_dirs.len(),
        files_under(t, t.dirs[d].child_dirs[a]).contains(p),
        files_under(t, t.dirs[d].child_dirs[b]).contains(p),
    ensures
        a == b,
{
    let ca = t.dirs[d].child_dirs[a];
    let cb = t.dirs[d].child_dirs[b];
    child_is_within(t, d, a, p);
    child_is_within(t, d, b, p);
    let i = choose|i: int|
        0 <= i < t.dirs.len() && is_within(t, ca, i) && is_within(t, d, i) && (
        #[trigger] t.dirs[i]).child_files.contains(p);
    let j = choose|j: int|
        0 <= j < t.dirs.len() && is_within(t, cb, j) && is_within(t, d, j) && (
        #[trigger] t.dirs[j]).child_files.contains(p);
    let k = choose|k: int| 0 <= k < t.dirs[i].child_files.len() && t.dirs[i].child_files[k] == p;
    let l = choose|l: int| 0 <= l < t.dirs[j].child_files.len() && t.dirs[j].child_files[l] == p;
    assert(t.dirs[i].child_files[k] == t.dirs[j].child_files[l]);
    assert(i == j);
    assert(t.dirs[ca].rel.drop_last() == t.dirs[d].rel);
    assert(t.dirs[cb].rel.drop_last() == t.dirs[d].rel);
    let n = t.dirs[d].rel.len() as int + 1;
    assert(t.dirs[ca].rel =~= t.dirs[i].rel.subrange(0, n));
    assert(t.dirs[cb].rel =~= t.dirs[i].rel.subrange(0, n));
    if ca < cb {
        assert(t.dirs[ca].rel != t.dirs[cb].rel);
    } else if cb < ca {
        assert(t.dirs[cb].rel != t.dirs[ca].rel);
    }
    assert(t.dirs[d].child_dirs[a] == t.dirs[d].child_dirs[b]);
}

proof fn dir_at_finds(dirs: Seq<Dir>, d: int)
    requires
        0 <= d < dirs.len(),
        forall|i: int, j: int|
            0 <= i < j < dirs.len() ==> (#[trigger] dirs[i]).id != (#[trigger] dirs[j]).id,
    ensures
        dir_at(dirs, dirs[d].id) == d,
    decreases dirs.len(),
{
    if d < dirs.len() - 1 {
        let front = dirs.drop_last();
        assert(dirs[d].id != dirs[dirs.len() - 1].id);
        assert forall|i: int, j: int| 0 <= i < j < front.len() implies (#[trigger] front[i]).id != (
        #[trigger] front[j]).id by {
            assert(dirs[i].id != dirs[j].id);
        }
        assert(front[d] == dirs[d]);
        dir_at_finds(front, d);
    }
}

/// Whether the directory with an id is the one at `d`, or no directory has the id and `d` is -1.
proof fn dir_at_is_there(dirs: Seq<Dir>, id: Seq<char>)
    ensures
        -1 <= dir_at(dirs, id) < dirs.len(),
        dir_at(dirs, id) >= 0 ==> dirs[dir_at(dirs, id)].id == id,
        dir_at(dirs, id) < 0 ==> forall|i: int| 0 <= i < dirs.len() ==> (#[trigger] dirs[i]).id != id,
    decreases dirs.len(),
{
    if dirs.len() > 0 && dirs.last().id != id {
        let front = dirs.drop_last();
        dir_at_is_there(front, id);
        assert forall|i: int| 0 <= i < dirs.len() && dir_at(dirs, id) < 0 implies (
        #[trigger] dirs[i]).id != id by {
            if i < front.len() {
                assert(front[i] == dirs[i]);
            }
        }
    }
}

/// Whatever directory of a library's tree is asked for, its files are collected each once, and they
/// are exactly those whose directory is that one or lies below it. An id that names no directory
/// collects none.
pub proof fn files_are_collected_once(
    files: Seq<Scanned>,
    n: nat,
    root: Seq<char>,
    prev: Option<Tree>,
    id: Seq<char>,
)
    requires
        n <= files.len(),
        prev is Some ==> well_formed(prev->0),
    ensures
        ({
            let t = built(files, n, root, prev);
            let d = dir_at(t.dirs, id);
            let under = files_under(t, d);
            &&& under.no_duplicates()
            &&& d < 0 ==> under.len() == 0 && forall|i: int|
                0 <= i < t.dirs.len() ==> (#[trigger] t.dirs[i]).id != id
            &&& d >= 0 ==> d < t.dirs.len() && t.dirs[d].id == id && forall|p: int| #[trigger]
                under.contains(p) <==> exists|i: int|
                    0 <= i < t.dirs.len() && is_within(t, d, i) && (
                    #[trigger] t.dirs[i]).child_files.contains(p)
        }),
{
    let t = built(files, n, root, prev);
    let d = dir_at(t.dirs, id);
    let under = files_under(t, d);
    ids_are_stable(files, n, root, prev);
    everything_has_one_place(files, n, root, prev);
    dir_at_is_there(t.dirs, id);
    if d >= 0 {
        under_once(t, d);
        assert forall|p: int| #[trigger] under.contains(p) <==> exists|i: int|
            0 <= i < t.dirs.len() && is_within(t, d, i) && (
            #[trigger] t.dirs[i]).child_files.contains(p) by {
            if under.contains(p) {
                under_is_within(t, d, p);
            }
            if exists|i: int|
                0 <= i < t.dirs.len() && is_within(t, d, i) && (
                #[trigger] t.dirs[i]).child_files.contains(p) {
                let i = choose|i: int|
                    0 <= i < t.dirs.len() && is_within(t, d, i) && (
                    #[trigger] t.dirs[i]).child_files.contains(p);
                let own = t.dirs[i].child_files;
                let k = choose|k: int| 0 <= k < own.len() && own[k] == p;
                assert(files_under(t, i)[k] == p);
                within_is_under(t, d, i, p);
            }
        }
    }
}

/// From the root of a library's tree all files are collected: every position once, and no other.
pub proof fn the_root_collects_everything(
    files: Seq<Scanned>,
    n: nat,
    root: Seq<char>,
    prev: Option<Tree>,
)
    requires
        n <= files.len(),
        prev is Some ==> well_formed(prev->0),
    ensures
        ({
            let t = built(files, n, root, prev);
            let all = files_under(t, dir_at(t.dirs, "0"@));
            &&& all.no_duplicates()
            &&& all.len() == played(files.take(n as int)).len()
            &&& forall|p: int| #[trigger]
                all.contains(p) <==> 0 <= p < played(files.take(n as int)).len()
        }),
{
    let t = built(files, n, root, prev);
    places_agree(files, n, root, prev);
    everything_has_one_place(files, n, root, prev);
    files_are_collected_once(files, n, root, prev, "0"@);
    dir_at_finds(t.dirs, 0);
    let all = files_under(t, 0);
    assert forall|p: int| #[trigger] all.contains(p) <==> 0 <= p < t.files.len() by {
        if all.contains(p) {
            under_points_inside(t, 0);
            let x = choose|x: int| 0 <= x < all.len() && all[x] == p;
        }
        if 0 <= p < t.files.len() {
            assert(file_has_home(t, p));
            let i = choose|i: int|
                0 <= i < t.dirs.len() && (#[trigger] t.dirs[i]).child_files.contains(p);
            assert(is_within(t, 0, i)) by {
                assert(t.dirs[0].rel =~= t.dirs[i].rel.subrange(0, 0));
            }
            assert(t.dirs[i].child_files.contains(p));
        }
    }
    all.unique_seq_to_set();
    vstd::set_lib::lemma_int_range(0, t.files.len() as int);
    assert(all.to_set() =~= vstd::set_lib::set_int_range(0, t.files.len() as int));
}

proof fn filled_leads_to_a_file(t: Tree, d: int)
    requires
        dirs_homed(t),
        filled_but(t, -1),
        0 < d < t.dirs.len(),
    ensures
        files_under(t, d).len() > 0,
    decreases t.dirs.len() - d,
{
    let m = t.dirs[d].child_dirs.len();
    if t.dirs[d].child_files.len() == 0 {
        assert(t.dirs[d].child_dirs.len() + t.dirs[d].child_files.len() > 0);
        let c = t.dirs[d].child_dirs[m - 1];
        assert(d < c < t.dirs.len());
        filled_leads_to_a_file(t, c);
        assert(files_below(t, d, m) == files_below(t, d, (m - 1) as nat) + files_under(t, c));
    }
}

/// Whether one of the first `n` positions is among positions.
pub open spec fn holds_below(at: Seq<int>, n: nat) -> bool {
    exists|p: int| #[trigger] at.contains(p) && 0 <= p < n
}

/// No directory of the tree is empty: below each lies a playable file.
pub proof fn no_directory_is_empty(files: Seq<Scanned>, n: nat, root: Seq<char>, prev: Option<Tree>)
    requires
        n <= files.len(),
        prev is Some ==> well_formed(prev->0),
    ensures
        forall|i: int|
            0 < i < built(files, n, root, prev).dirs.len() ==> holds_below(
                #[trigger] files_under(built(files, n, root, prev), i),
                played(files.take(n as int)).len(),
            ),
{
    let t = built(files, n, root, prev);
    filled(files, n, root, prev);
    places_agree(files, n, root, prev);
    everything_has_one_place(files, n, root, prev);
    assert forall|i: int| 0 < i < t.dirs.len() implies holds_below(
        #[trigger] files_under(t, i),
        played(files.take(n as int)).len(),
    ) by {
        filled_leads_to_a_file(t, i);
        under_points_inside(t, i);
        let p = files_under(t, i)[0];
        assert(files_under(t, i).contains(p));
    }
}

fn keep_titled(files: &Vec<&ScannedFile>, at: &Vec<usize>, text: &str) -> (r: Vec<usize>)
    ensures
        positions(r@) == titled(
            Seq::new(files@.len(), |i: int| files@[i].content()),
            positions(at@),
            text@,
        ),
        forall|k: int| 0 <= k < r@.len() ==> at@.contains(#[trigger] r@[k]),
{
    let ghost known = Seq::new(files@.len(), |i: int| files@[i].content());
    let ghost all = positions(at@);
    let needle = lower_text(text);
    let mut out: Vec<usize> = Vec::new();
    let mut k: usize = 0;
    assert(all.take(0) =~= Seq::<int>::empty());
    assert(positions(out@) =~= Seq::<int>::empty());
    while k < at.len()
        invariant
            k <= at@.len(),
            known == Seq::new(files@.len(), |i: int| files@[i].content()),
            all == positions(at@),
            needle@ == lower(text@),
            positions(out@) == titled(known, all.take(k as int), text@),
            forall|j: int| 0 <= j < out@.len() ==> at@.contains(#[trigger] out@[j]),
        decreases at@.len() - k,
    {
        let i: usize = at[k];
        let ghost had = positions(out@);
        proof {
            assert(all.take(k as int + 1).drop_last() =~= all.take(k as int));
            assert(all.take(k as int + 1).last() == i as int);
            assert(at@[k as int] == i);
        }
        if i < files.len() {
            let label = lower_text(files[i].label().as_str());
            if contains_text(label.as_str(), needle.as_str()) {
                out.push(i);
                assert(positions(out@) =~= had.push(i as int));
            }
        }
        k += 1;
    }
    assert(all.take(k as int) =~= all);
    out
}

/// Answers a request to search.
pub fn handle_search(
    library: &Snapshot,
    search: Option<&SearchRequest>,
    base_url: &str,
) -> (r: Result<Listing, Fault>)
    requires
        library.consistent(),
    ensures
        match search_answer(
            library.tree.content(),
            played(library.scan.content().files),
            search,
            base_url@,
        ) {
            Ok((objects, total)) => match r {
                Ok(l) => objects_view(l.objects@) == objects && l.total == total && l.update_id
                    == library.system_update_id,
                Err(_) => false,
            },
            Err(code) => match r {
                Ok(_) => false,
                Err(f) => f.code == code && f.description@ == fault_text(code),
            },
        },
{
    let req = match search {
        Some(s) => s,
        None => {
            return Err(Fault { code: 402, description: "Invalid Args" });
        },
    };
    let tree = &library.tree;
    let ghost t = tree.content();
    let ghost d = dir_at(t.dirs, req.container_id@);
    if tree.dir_by_id(req.container_id.as_str()).is_none() {
        return Err(Fault { code: 701, description: "No such object" });
    }
    let files = library.scan.playable();
    let ghost known = played(library.scan.content().files);
    assert(Seq::new(files@.len(), |i: int| files@[i].content()) == known);
    let under = collect_file_indices_recursive(tree, req.container_id.as_str());
    proof {
        under_points_inside(t, d);
        assert forall|k: int| 0 <= k < under@.len() implies #[trigger] under@[k] < tree.files@.len() by {
            assert(files_under(t, d)[k] == under@[k] as int);
        }
    }
    let matched = match &req.criteria {
        SearchCriteria::MatchAll => under,
        SearchCriteria::TitleContains(text) => keep_titled(&files, &under, text.as_str()),
        SearchCriteria::Unsupported => {
            return Err(
                Fault { code: 708, description: "Unsupported or invalid search criteria" },
            );
        },
    };
    assert forall|k: int| 0 <= k < matched@.len() implies #[trigger] matched@[k]
        < tree.files@.len() by {
        if req.criteria is TitleContains {
            assert(under@.contains(matched@[k]));
        }
    }
    let total: usize = matched.len();
    let (from, to): (usize, usize) = page_bounds(total, req.starting_index, req.requested_count);
    let ghost all = positions(matched@);
    let ghost cut = page(all, req.starting_index as int, req.requested_count as int);
    assert(cut =~= all.subrange(from as int, to as int));
    let mut objects: Vec<DidlObject> = Vec::new();
    let mut k: usize = from;
    assert(cut.take(0) =~= Seq::<int>::empty());
    assert(objects_view(objects@) =~= Seq::<Object>::empty());
    while k < to
        invariant
            from <= k <= to <= matched@.len(),
            all == positions(matched@),
            cut == all.subrange(from as int, to as int),
            t == tree.content(),
            known == Seq::new(files@.len(), |i: int| files@[i].content()),
            forall|j: int| 0 <= j < matched@.len() ==> #[trigger] matched@[j] < tree.files@.len(),
            objects_view(objects@) == found_objects(t, known, cut.take(k - from), base_url@),
        decreases to - k,
    {
        let i: usize = matched[k];
        let ghost had = objects_view(objects@);
        proof {
            assert(cut.take(k - from + 1).drop_last() =~= cut.take(k - from));
            assert(cut.take(k - from + 1).last() == i as int);
            assert(matched@[k as int] < tree.files@.len());
            assert(t.files[i as int] == tree.files@[i as int].content());
        }
        if i < files.len() {
            let leaf = &tree.files[i];
            let item = file_item(leaf.id.as_str(), leaf.parent_id.as_str(), files[i], base_url);
            let ghost c = item.content();
            objects.push(item);
            assert(objects_view(objects@) =~= had.push(c));
        }
        k += 1;
    }
    assert(cut.take(k - from) =~= cut);
    Ok(Listing { objects, total, update_id: library.system_update_id })
}

/// What a request over HTTP leads to.
#[derive(Debug, Clone, PartialEq)]
pub enum Route {
    Description,
    ContentDirectoryInterface,
    ConnectionManagerInterface,
    ContentDirectoryControl,
    ConnectionManagerControl,
    /// The file with an id.
    Stream(String),
    NotFound,
}

/// Where a method and a path lead.
pub open spec fn routed(method: Seq<char>, path: Seq<char>, r: Route) -> bool {
    if method == "GET"@ && path == "/dlna/desc.xml"@ {
        r is Description
    } else if method == "GET"@ && path == "/dlna/cd.xml"@ {
        r is ContentDirectoryInterface
    } else if method == "GET"@ && path == "/dlna/cm.xml"@ {
        r is ConnectionManagerInterface
    } else if method == "POST"@ && path == "/dlna/cd/control"@ {
        r is ContentDirectoryControl
    } else if method == "POST"@ && path == "/dlna/cm/control"@ {
        r is ConnectionManagerControl
    } else if (method == "GET"@ || method == "HEAD"@) && "/dlna/stream/"@.is_prefix_of(path) {
        match r {
            Route::Stream(id) => id@ == path.skip("/dlna/stream/"@.len() as int),
            _ => false,
        }
    } else {
        r is NotFound
    }
}

/// Where a method and a path lead.
pub fn route(method: &str, path: &str) -> (r: Route)
    ensures
        routed(method@, path@, r),
{
    let get = same(method, "GET");
    let post = same(method, "POST");
    if get && same(path, "/dlna/desc.xml") {
        Route::Description
    } else if get && same(path, "/dlna/cd.xml") {
        Route::ContentDirectoryInterface
    } else if get && same(path, "/dlna/cm.xml") {
        Route::ConnectionManagerInterface
    } else if post && same(path, "/dlna/cd/control") {
        Route::ContentDirectoryControl
    } else if post && same(path, "/dlna/cm/control") {
        Route::ConnectionManagerControl
    } else if get || same(method, "HEAD") {
        match crate::text::strip_prefix(path, "/dlna/stream/") {
            Some(id) => Route::Stream(id),
            None => Route::NotFound,
        }
    } else {
        Route::NotFound
    }
}

/// What a control request asks of the content directory.
#[derive(Debug, Clone, Copy, PartialEq, Eq, Structural)]
pub enum DirectoryAction {
    Browse,
    Search,
    GetSystemUpdateId,
    Invalid,
}

/// What an action header asks of the content directory.
pub open spec fn directory_action(header: Option<Seq<char>>) -> DirectoryAction {
    match header {
        Some(h) => if occurs(h, "#Browse"@) {
            DirectoryAction::Browse
        } else if occurs(h, "#Search"@) {
            DirectoryAction::Search
        } else if occurs(h, "#GetSystemUpdateID"@) {
            DirectoryAction::GetSystemUpdateId
        } else {
            DirectoryAction::Invalid
        },
        None => DirectoryAction::Invalid,
    }
}

/// What a control request asks of the content directory. Anything else is answered with a fault.
pub fn handle_content_directory_control(soapaction: Option<&str>) -> (r: DirectoryAction)
    ensures
        r == directory_action(opt_str_view(soapaction)),
{
    match soapaction {
        Some(h) => if contains_text(h, "#Browse") {
            DirectoryAction::Browse
        } else if contains_text(h, "#Search") {
            DirectoryAction::Search
        } else if contains_text(h, "#GetSystemUpdateID") {
            DirectoryAction::GetSystemUpdateId
        } else {
            DirectoryAction::Invalid
        },
        None => DirectoryAction::Invalid,
    }
}

/// What a control request asks of the connection manager.
#[derive(Debug, Clone, Copy, PartialEq, Eq, Structural)]
pub enum ManagerAction {
    GetProtocolInfo,
    GetCurrentConnectionIds,
    Invalid,
}

/// What an action header asks of the connection manager.
pub open spec fn manager_action(header: Option<Seq<char>>) -> ManagerAction {
    match header {
        Some(h) => if occurs(h, "#GetProtocolInfo"@) {
            ManagerAction::GetProtocolInfo
        } else if occurs(h, "#GetCurrentConnectionIDs"@) {
            ManagerAction::GetCurrentConnectionIds
        } else {
            ManagerAction::Invalid
        },
        None => ManagerAction::Invalid,
    }
}

/// What a control request asks of the connection manager. Anything else is answered with a fault.
pub fn handle_connection_manager_control(soapaction: Option<&str>) -> (r: ManagerAction)
    ensures
        r == manager_action(opt_str_view(soapaction)),
{
    match soapaction {
        Some(h) => if contains_text(h, "#GetProtocolInfo") {
            ManagerAction::GetProtocolInfo
        } else if contains_text(h, "#GetCurrentConnectionIDs") {
            ManagerAction::GetCurrentConnectionIds
        } else {
            ManagerAction::Invalid
        },
        None => ManagerAction::Invalid,
    }
}

/// The fault for an action that is not offered.
pub fn invalid_action() -> (r: Fault)
    ensures
        r.code == 401,
        r.description@ == fault_text(401),
{
    Fault { code: 401, description: "Invalid Action" }
}

/// The path and media type of the file with an id; `None` when there is none.
pub fn serve_stream(library: &Snapshot, id: &str) -> (r: Option<(String, &'static str)>)
    ensures
        ({
            let i = leaf_at(library.tree.content().files, id@);
            let known = played(library.scan.content().files);
            if 0 <= i < known.len() {
                match r {
                    Some((path, ty)) => path@ == known[i].path && ty@ == media_type(
                        known[i].container,
                        known[i].extension,
                    ),
                    None => false,
                }
            } else {
                r is None
            }
        }),
{
    let files = library.scan.playable();
    let ghost known = played(library.scan.content().files);
    assert(Seq::new(files@.len(), |i: int| files@[i].content()) == known);
    match library.tree.file_position(id) {
        Some(i) => if i < files.len() {
            let f = files[i];
            assert(known[i as int] == f.content());
            Some((f.path.clone(), content_type_for(f.container, opt_borrow(&f.extension))))
        } else {
            None
        },
        None => None,
    }
}

/// The number that tells control points of a change, before any.
pub const INITIAL_SYSTEM_UPDATE_ID: u32 = 1;

/// A library that is shown, with the number that tells control points of a change.
pub struct Snapshot {
    pub scan: Scan,
    pub tree: LibraryTree,
    pub system_update_id: u32,
}

impl Snapshot {
    /// Whether the tree is that of the scan's playable files.
    pub open spec fn consistent(&self) -> bool {
        tree_of(self.tree.content(), played(self.scan.content().files))
    }

    /// The library as it is first shown.
    pub fn first(scan: Scan, library_root: &str) -> (r: Self)
        ensures
            r.scan == scan,
            r.tree.content() == built(
                scan.content().files,
                scan.content().files.len(),
                library_root@,
                None,
            ),
            r.system_update_id == 1,
            r.consistent(),
    {
        let tree = LibraryTree::build(&scan, library_root, None);
        proof {
            let files = scan.content().files;
            places_agree(files, files.len(), library_root@, None);
            assert(files.take(files.len() as int) =~= files);
        }
        Snapshot { scan, tree, system_update_id: INITIAL_SYSTEM_UPDATE_ID }
    }

    /// Shows a new scan in the place of the old one. Objects that are still there keep their ids,
    /// and the number goes up by one. Gives the count of playable files and the new number.
    pub fn refresh_library(&mut self, scan: Scan, library_root: &str) -> (r: (usize, u32))
        requires
            old(self).consistent(),
            old(self).tree.next_dir_id < 0x8000_0000_0000_0000_0000_0000_0000_0000,
            old(self).tree.next_file_id < 0x8000_0000_0000_0000_0000_0000_0000_0000,
        ensures
            final(self).consistent(),
            final(self).scan == scan,
            final(self).tree.content() == built(
                scan.content().files,
                scan.content().files.len(),
                library_root@,
                Some(old(self).tree.content()),
            ),
            final(self).system_update_id == (if old(self).system_update_id == u32::MAX {
                0
            } else {
                (old(self).system_update_id + 1) as u32
            }),
            r.0 == played(scan.content().files).len(),
            r.1 == final(self).system_update_id,
    {
        let files = scan.playable();
        let count: usize = files.len();
        assert(Seq::new(files@.len(), |i: int| files@[i].content()).len() == count);
        let tree = LibraryTree::build(&scan, library_root, Some(&self.tree));
        proof {
            let files = scan.content().files;
            places_agree(files, files.len(), library_root@, Some(self.tree.content()));
            assert(files.take(files.len() as int) =~= files);
        }
        self.scan = scan;
        self.tree = tree;
        self.system_update_id = self.system_update_id.wrapping_add(1);
        (count, self.system_update_id)
    }
}

/// The bytes with the version and the variant of a random UUID set.
pub open spec fn uuid_bytes(b: Seq<u8>) -> Seq<u8> {
    b.update(6, (b[6] & 0x0f) | 0x40).update(8, (b[8] & 0x3f) | 0x80)
}

/// The text of a random UUID: hexadecimal in groups of four, two, two, two and six bytes.
pub open spec fn uuid_of(b: Seq<u8>) -> Seq<char> {
    let m = uuid_bytes(b);
    hex(m.subrange(0, 4)) + "-"@ + hex(m.subrange(4, 6)) + "-"@ + hex(m.subrange(6, 8)) + "-"@
        + hex(m.subrange(8, 10)) + "-"@ + hex(m.subrange(10, 16))
}

fn hex_between(b: &Vec<u8>, from: usize, to: usize) -> (r: String)
    requires
        from <= to <= b@.len(),
    ensures
        r@ == hex(b@.subrange(from as int, to as int)),
{
    let mut part: Vec<u8> = Vec::new();
    let mut i: usize = from;
    while i < to
        invariant
            from <= i <= to <= b@.len(),
            part@ == b@.subrange(from as int, i as int),
        decreases to - i,
    {
        part.push(b[i]);
        i += 1;
        assert(part@ =~= b@.subrange(from as int, i as int));
    }
    hex_text(part.as_slice())
}

/// The UUID of sixteen bytes.
pub fn uuid_text(bytes: [u8; 16]) -> (r: String)
    ensures
        r@ == uuid_of(bytes@),
{
    let mut m: Vec<u8> = Vec::new();
    let mut i: usize = 0;
    while i < 16
        invariant
            i <= 16,
            m@ == bytes@.take(i as int),
        decreases 16 - i,
    {
        m.push(bytes[i]);
        i += 1;
        assert(m@ =~= bytes@.take(i as int));
    }
    assert(m@ =~= bytes@);
    let version: u8 = (m[6] & 0x0f) | 0x40;
    let variant: u8 = (m[8] & 0x3f) | 0x80;
    m.set(6, version);
    m.set(8, variant);
    let mut out = hex_between(&m, 0, 4);
    out.append("-");
    out.append(hex_between(&m, 4, 6).as_str());
    out.append("-");
    out.append(hex_between(&m, 6, 8).as_str());
    out.append("-");
    out.append(hex_between(&m, 8, 10).as_str());
    out.append("-");
    out.append(hex_between(&m, 10, 16).as_str());
    out
}

/// A fresh UUID; `None` when the system's source of randomness fails.
pub fn random_uuid() -> (r: Option<String>)
    ensures
        r is Some ==> exists|b: Seq<u8>| b.len() == 16 && r->0@ == #[trigger] uuid_of(b),
{
    match random_bytes(16) {
        Some(b) => {
            let bytes = first_16(&b);
            let text = uuid_text(bytes);
            assert(bytes@.len() == 16 && text@ == uuid_of(bytes@));
            Some(text)
        },
        None => None,
    }
}

/// Whatever the bytes, the UUID says that it is a random one: 36 characters, the fifteenth a `4`,
/// the twentieth one of `8`, `9`, `a` and `b`.
pub proof fn uuids_are_version_4(b: Seq<u8>)
    requires
        b.len() == 16,
    ensures
        uuid_of(b).len() == 36,
        uuid_of(b)[14] == '4',
        uuid_of(b)[19] == '8' || uuid_of(b)[19] == '9' || uuid_of(b)[19] == 'a' || uuid_of(b)[19]
            == 'b',
{
    let m = uuid_bytes(b);
    reveal_strlit("-");
    let x = b[6];
    let y = b[8];
    assert(((x & 0x0f) | 0x40) / 16 == 4) by (bit_vector);
    assert(8 <= ((y & 0x3f) | 0x80) / 16 && ((y & 0x3f) | 0x80) / 16 <= 11) by (bit_vector);
    assert(m[6] == (x & 0x0f) | 0x40);
    assert(m[8] == (y & 0x3f) | 0x80);
    hex_is_lowercase(m.subrange(0, 4));
    hex_is_lowercase(m.subrange(4, 6));
    hex_is_lowercase(m.subrange(6, 8));
    hex_is_lowercase(m.subrange(8, 10));
    hex_is_lowercase(m.subrange(10, 16));
    first_hex(m.subrange(6, 8));
    first_hex(m.subrange(8, 10));
    let u = uuid_of(b);
    assert(u[14] == hex(m.subrange(6, 8))[0]);
    assert(u[19] == hex(m.subrange(8, 10))[0]);
}

/// Hexadecimal text begins with the high digit of the first byte.
proof fn first_hex(b: Seq<u8>)
    requires
        b.len() > 0,
    ensures
        hex(b).len() > 0,
        hex(b)[0] == hex_digit(b[0] as int / 16),
    decreases b.len(),
{
    if b.len() > 1 {
        first_hex(b.drop_last());
        assert(hex(b)[0] == hex(b.drop_last())[0]);
    } else {
        assert(b.drop_last() =~= Seq::<u8>::empty());
        assert(hex(Seq::<u8>::empty()) =~= Seq::<char>::empty());
        assert(hex(b) =~= hex2(b[0]));
    }
}

/// What a server with a UUID announces: a kind and a unique name each.
pub open spec fn announced(uuid: Seq<char>) -> Seq<(Seq<char>, Seq<char>)> {
    let me = "uuid:"@ + uuid;
    seq![
        ("upnp:rootdevice"@, me + "::upnp:rootdevice"@),
        (me, me),
        (
            "urn:schemas-upnp-org:device:MediaServer:1"@,
            me + "::urn:schemas-upnp-org:device:MediaServer:1"@,
        ),
        (
            "urn:schemas-upnp-org:service:ContentDirectory:1"@,
            me + "::urn:schemas-upnp-org:service:ContentDirectory:1"@,
        ),
        (
            "urn:schemas-upnp-org:service:ConnectionManager:1"@,
            me + "::urn:schemas-upnp-org:service:ConnectionManager:1"@,
        ),
    ]
}

fn suffixed(head: &String, tail: &str) -> (r: String)
    ensures
        r@ == head@ + tail@,
{
    let mut s = head.clone();
    s.append(tail);
    s
}

/// What a server with a UUID announces.
pub fn announcements(uuid: &str) -> (r: Vec<(String, String)>)
    ensures
        pair_views(r@) == announced(uuid@),
{
    let mut me = owned("uuid:");
    me.append(uuid);
    let r = vec![
        (owned("upnp:rootdevice"), suffixed(&me, "::upnp:rootdevice")),
        (me.clone(), me.clone()),
        (
            owned("urn:schemas-upnp-org:device:MediaServer:1"),
            suffixed(&me, "::urn:schemas-upnp-org:device:MediaServer:1"),
        ),
        (
            owned("urn:schemas-upnp-org:service:ContentDirectory:1"),
            suffixed(&me, "::urn:schemas-upnp-org:service:ContentDirectory:1"),
        ),
        (
            owned("urn:schemas-upnp-org:service:ConnectionManager:1"),
            suffixed(&me, "::urn:schemas-upnp-org:service:ConnectionManager:1"),
        ),
    ];
    assert(pair_views(r@) =~= announced(uuid@));
    r
}

/// The media types that are offered, in order.
pub open spec fn offered_types() -> Seq<Seq<char>> {
    seq![
        "video/x-matroska"@,
        "video/webm"@,
        "video/mp4"@,
        "video/mp2t"@,
        "video/mpeg"@,
        "video/x-msvideo"@,
        "video/x-ms-asf"@,
        "video/x-flv"@,
        "video/ogg"@,
        "audio/mpeg"@,
        "audio/flac"@,
        "audio/aac"@,
        "audio/wav"@,
        "audio/mp4"@,
    ]
}

/// The media types that are offered.
pub fn source_mime_types() -> (r: Vec<String>)
    ensures
        views(r@) == offered_types(),
{
    let r = vec![
        owned("video/x-matroska"),
        owned("video/webm"),
        owned("video/mp4"),
        owned("video/mp2t"),
        owned("video/mpeg"),
        owned("video/x-msvideo"),
        owned("video/x-ms-asf"),
        owned("video/x-flv"),
        owned("video/ogg"),
        owned("audio/mpeg"),
        owned("audio/flac"),
        owned("audio/aac"),
        owned("audio/wav"),
        owned("audio/mp4"),
    ];
    assert(views(r@) =~= offered_types());
    r
}

/// Every file is served as one of the types that are offered, or as the generic one.
pub proof fn served_types_are_offered(container: Option<Container>, ext: Option<Seq<char>>)
    ensures
        offered_types().contains(media_type(container, ext)) || media_type(container, ext)
            == "application/octet-stream"@,
{
    let o = offered_types();
    assert(o[0] == "video/x-matroska"@ && o[1] == "video/webm"@ && o[2] == "video/mp4"@ && o[3]
        == "video/mp2t"@ && o[4] == "video/mpeg"@ && o[5] == "video/x-msvideo"@ && o[6]
        == "video/x-ms-asf"@);
    assert(o[7] == "video/x-flv"@ && o[8] == "video/ogg"@ && o[9] == "audio/mpeg"@ && o[10]
        == "audio/flac"@ && o[11] == "audio/aac"@ && o[12] == "audio/wav"@ && o[13]
        == "audio/mp4"@);
}

/// The header lines that a stream carries beside the usual ones: no profile is claimed.
pub fn stream_headers() -> (r: &'static str)
    ensures
        r@ == "contentFeatures.dnt.org: \r\n"@,
{
    "contentFeatures.dnt.org: \r\n"
}

/// The head of a response with a fault of `len` bytes.
pub fn fault_head(len: usize) -> (r: String)
    ensures
        r@
            == "HTTP/1.1 500 Internal Server Error\r\nContent-Type: text/xml; charset=\"utf-8\"\r\nContent-Length: "@
            + dec(len as nat) + "\r\nConnection: close\r\n\r\n"@,
{
    let mut out = owned(
        "HTTP/1.1 500 Internal Server Error\r\nContent-Type: text/xml; charset=\"utf-8\"\r\nContent-Length: ",
    );
    out.append(dec_text(len as u128).as_str());
    out.append("\r\nConnection: close\r\n\r\n");
    out
}

/// A file is found by a text exactly where its label holds the text, letter case aside: where the
/// label is a beginning, the text and an end, one after the other. The files found keep their order,
/// and none is found that was not searched.
pub proof fn titles_are_searched_everywhere(played: Seq<Scanned>, at: Seq<int>, text: Seq<char>)
    ensures
        forall|i: int| #[trigger]
            titled(played, at, text).contains(i) <==> at.contains(i) && 0 <= i < played.len()
                && exists|p: Seq<char>, q: Seq<char>|
                lower(label_of(played[i])) == #[trigger] p.add(lower(text)).add(q),
        keeps_order(titled(played, at, text), at),
    decreases at.len(),
{
    let found = titled(played, at, text);
    if at.len() == 0 {
        assert(kept_at(found, at, |k: int| k));
    } else {
        let front = at.drop_last();
        let rest = titled(played, front, text);
        let last = at.last();
        titles_are_searched_everywhere(played, front, text);
        let taken = 0 <= last < played.len() && occurs(lower(label_of(played[last])), lower(text));
        if 0 <= last < played.len() {
            occurs_between(lower(label_of(played[last])), lower(text));
        }
        assert(at =~= front.push(last));
        assert forall|i: int| #[trigger] found.contains(i) <==> at.contains(i) && 0 <= i
            < played.len() && exists|p: Seq<char>, q: Seq<char>|
            lower(label_of(played[i])) == #[trigger] p.add(lower(text)).add(q) by {
            if found.contains(i) {
                let k = choose|k: int| 0 <= k < found.len() && found[k] == i;
                if k < rest.len() {
                    assert(rest[k] == i);
                    assert(rest.contains(i));
                    let j = choose|j: int| 0 <= j < front.len() && front[j] == i;
                    assert(at[j] == i);
                } else {
                    assert(at[at.len() - 1] == i);
                }
            }
            if at.contains(i) && 0 <= i < played.len() && exists|p: Seq<char>, q: Seq<char>|
                lower(label_of(played[i])) == #[trigger] p.add(lower(text)).add(q) {
                let j = choose|j: int| 0 <= j < at.len() && at[j] == i;
                if j < front.len() {
                    assert(front[j] == i);
                    assert(rest.contains(i));
                    let k = choose|k: int| 0 <= k < rest.len() && rest[k] == i;
                    assert(found[k] == i);
                } else {
                    assert(found[found.len() - 1] == i);
                }
            }
        }
        let w = choose|w: spec_fn(int) -> int| kept_at(rest, front, w);
        let now = |k: int|
            if k < rest.len() {
                w(k)
            } else {
                at.len() - 1
            };
        assert(kept_at(found, at, now)) by {
            assert forall|k: int| 0 <= k < found.len() implies 0 <= #[trigger] now(k) < at.len()
                && at[now(k)] == found[k] by {
                if k < rest.len() {
                    assert(0 <= w(k) < front.len() && front[w(k)] == rest[k]);
                }
            }
            assert forall|j: int, k: int| 0 <= j < k < found.len() implies #[trigger] now(j)
                < #[trigger] now(k) by {
                if k < rest.len() {
                    assert(w(j) < w(k));
                } else {
                    assert(0 <= w(j) < front.len());
                }
            }
        }
    }
}

/// Whether `w` says where each element of a list stands in another, ever further on.
pub open spec fn kept_at(part: Seq<int>, whole: Seq<int>, w: spec_fn(int) -> int) -> bool {
    &&& forall|k: int|
        0 <= k < part.len() ==> 0 <= #[trigger] w(k) < whole.len() && whole[w(k)] == part[k]
    &&& forall|j: int, k: int| 0 <= j < k < part.len() ==> #[trigger] w(j) < #[trigger] w(k)
}

/// Whether the elements of a list all stand in another, in the same order.
pub open spec fn keeps_order(part: Seq<int>, whole: Seq<int>) -> bool {
    exists|w: spec_fn(int) -> int| kept_at(part, whole, w)
}

/// Pages follow on from each other: a page and what is left after it are what there was from its
/// start on, a page from the start of no certain size is everything, and a page holds as many as were
/// asked for, or else all that is left.
pub proof fn pages_follow_on<A>(s: Seq<A>, start: int, count: int)
    requires
        0 <= start,
        0 < count,
    ensures
        page(s, 0, 0) == s,
        page(s, start, count) + page(s, start + count, 0) == page(s, start, 0),
        page(s, 0, start) + page(s, start, 0) == s || start == 0,
        page(s, start, count).len() == count || page(s, start + count, 0).len() == 0,
        page(s, start, count).len() <= count,
{
    assert(page(s, 0, 0) =~= s);
    assert(page(s, start, count) + page(s, start + count, 0) =~= page(s, start, 0));
    if start > 0 {
        assert(page(s, 0, start) + page(s, start, 0) =~= s);
    }
}

proof fn found_objects_are(t: Tree, played: Seq<Scanned>, at: Seq<int>, base: Seq<char>)
    requires
        forall|k: int| 0 <= k < at.len() ==> 0 <= #[trigger] at[k] < played.len(),
    ensures
        found_objects(t, played, at, base).len() == at.len(),
        forall|k: int|
            0 <= k < at.len() ==> #[trigger] found_objects(t, played, at, base)[k] == file_object(
                t.files[at[k]].id,
                t.files[at[k]].parent_id,
                played[at[k]],
                base,
            ),
    decreases at.len(),
{
    if at.len() > 0 {
        let front = at.drop_last();
        assert forall|k: int| 0 <= k < front.len() implies 0 <= #[trigger] front[k] < played.len() by {
            assert(front[k] == at[k]);
        }
        found_objects_are(t, played, front, base);
        assert(0 <= at[at.len() - 1] < played.len());
    }
}

/// A search of a whole directory by a text lists a file below it exactly where the file's label holds
/// the text, letter case aside: under the file's own id, directory and label, and with the address
/// that streams it. The total is the number of files listed.
pub proof fn a_search_lists_what_holds_the_text(
    t: Tree,
    played: Seq<Scanned>,
    req: &SearchRequest,
    text: String,
    base: Seq<char>,
)
    requires
        tree_of(t, played),
        req.criteria == SearchCriteria::TitleContains(text),
        req.starting_index == 0,
        req.requested_count == 0,
        dir_at(t.dirs, req.container_id@) >= 0,
    ensures
        match search_answer(t, played, Some(req), base) {
            Ok((objects, total)) => {
                let under = files_under(t, dir_at(t.dirs, req.container_id@));
                let at = titled(played, under, text@);
                &&& total == objects.len()
                &&& objects.len() == at.len()
                &&& forall|i: int| #[trigger]
                    at.contains(i) <==> under.contains(i) && exists|p: Seq<char>, q: Seq<char>|
                        lower(label_of(played[i])) == #[trigger] p.add(lower(text@)).add(q)
                &&& forall|k: int|
                    0 <= k < at.len() ==> {
                        let o = #[trigger] objects[k];
                        &&& o.id == t.files[at[k]].id
                        &&& o.parent_id == t.files[at[k]].parent_id
                        &&& o.title == label_of(played[at[k]])
                        &&& o.class == ObjectClass::VideoItem
                        &&& match o.resource {
                            Some((address, ty, size)) => address == base + "/dlna/stream/"@ + o.id
                                && size == Some(played[at[k]].size),
                            None => false,
                        }
                    }
            },
            Err(_) => false,
        },
{
    let d = dir_at(t.dirs, req.container_id@);
    let under = files_under(t, d);
    let at = titled(played, under, text@);
    dir_at_is_there(t.dirs, req.container_id@);
    titles_are_searched_everywhere(played, under, text@);
    under_points_inside(t, d);
    assert forall|i: int| under.contains(i) implies 0 <= i < played.len() by {
        let k = choose|k: int| 0 <= k < under.len() && under[k] == i;
    }
    assert forall|k: int| 0 <= k < at.len() implies 0 <= #[trigger] at[k] < played.len() by {
        assert(at.contains(at[k]));
    }
    pages_follow_on(at, 0, 1);
    found_objects_are(t, played, at, base);
}

/// Whether every directory but the root goes by the last of the names that lead to it, and the root
/// by none.
pub open spec fn dirs_named(t: Tree) -> bool {
    forall|i: int|
        0 < i < t.dirs.len() ==> (#[trigger] t.dirs[i]).rel.len() > 0 && t.dirs[i].name
            == t.dirs[i].rel.last()
}

/// Whether the file at a position is in the directory that these names lead to.
pub open spec fn stands_in(t: Tree, p: int, names: Seq<Seq<char>>) -> bool {
    exists|d: int|
        0 <= d < t.dirs.len() && (#[trigger] t.dirs[d]).rel == names && t.dirs[d].child_files.contains(
            p,
        ) && t.files[p].parent_id == t.dirs[d].id
}

proof fn descended_leads(
    t: Tree,
    prev: Option<Tree>,
    names: Seq<Seq<char>>,
    k: int,
    parent: int,
)
    requires
        dirs_named(t),
        0 <= k <= names.len(),
        0 <= parent < t.dirs.len(),
        t.dirs[parent].rel == names.take(k),
    ensures
        ({
            let (u, at) = descended(t, prev, names, k, parent);
            &&& dirs_named(u)
            &&& 0 <= at < u.dirs.len()
            &&& u.dirs[at].rel == names
            &&& u.files == t.files
            &&& u.dirs.len() >= t.dirs.len()
            &&& forall|i: int|
                0 <= i < t.dirs.len() ==> (#[trigger] u.dirs[i]).rel == t.dirs[i].rel && u.dirs[i].id
                    == t.dirs[i].id && u.dirs[i].child_files == t.dirs[i].child_files
        }),
    decreases names.len() - k,
{
    if k < names.len() {
        let rel = names.take(k + 1);
        find_dir_is_there(t.dirs, rel);
        let at = find_dir(t.dirs, rel);
        if at >= 0 {
            descended_leads(t, prev, names, k + 1, at);
        } else {
            let u = with_dir(t, prev, rel, parent);
            assert(u.dirs[t.dirs.len() as int].rel == rel);
            assert forall|i: int| 0 < i < u.dirs.len() implies (#[trigger] u.dirs[i]).rel.len() > 0
                && u.dirs[i].name == u.dirs[i].rel.last() by {
                if i < t.dirs.len() {
                    assert(t.dirs[i].rel.len() > 0);
                }
            }
            descended_leads(u, prev, names, k + 1, t.dirs.len() as int);
            assert forall|i: int| 0 <= i < t.dirs.len() implies (#[trigger] u.dirs[i]).rel
                == t.dirs[i].rel && u.dirs[i].id == t.dirs[i].id && u.dirs[i].child_files
                == t.dirs[i].child_files by {}
            let v = descended(u, prev, names, k + 1, t.dirs.len() as int).0;
            assert forall|i: int| 0 <= i < t.dirs.len() implies (#[trigger] v.dirs[i]).rel
                == t.dirs[i].rel && v.dirs[i].id == t.dirs[i].id && v.dirs[i].child_files
                == t.dirs[i].child_files by {
                assert(u.dirs[i].rel == t.dirs[i].rel);
            }
        }
    } else {
        assert(names.take(k) =~= names);
    }
}

/// However a library changes, every playable file stands in the directory that its own path leads to
/// below the root, and every directory goes by the last name of its own place.
pub proof fn files_stand_where_their_paths_lead(
    files: Seq<Scanned>,
    n: nat,
    root: Seq<char>,
    prev: Option<Tree>,
)
    requires
        n <= files.len(),
    ensures
        ({
            let t = built(files, n, root, prev);
            let known = played(files.take(n as int));
            &&& dirs_named(t)
            &&& t.files.len() == known.len()
            &&& forall|p: int|
                0 <= p < known.len() ==> #[trigger] stands_in(t, p, dir_names(known[p].path, root))
        }),
    decreases n,
{
    reveal(Seq::filter);
    if n == 0 {
        assert(files.take(0) =~= Seq::empty());
    } else {
        let before = (n - 1) as nat;
        let t = built(files, before, root, prev);
        let had = played(files.take(before as int));
        let known = played(files.take(n as int));
        files_stand_where_their_paths_lead(files, before, root, prev);
        root_stays(files, before, root, prev);
        assert(files.take(n as int).drop_last() =~= files.take(before as int));
        if files[n - 1].playable() {
            let names = dir_names(files[n - 1].path, root);
            assert(names.take(0) =~= t.dirs[0].rel);
            descended_leads(t, prev, names, 0, 0);
            let (u, at) = descended(t, prev, names, 0, 0);
            let w = built(files, n, root, prev);
            assert(known == had.push(files[n - 1]));
            assert forall|i: int| 0 <= i < u.dirs.len() implies (#[trigger] w.dirs[i]).rel
                == u.dirs[i].rel && w.dirs[i].id == u.dirs[i].id && w.dirs[i].name
                == u.dirs[i].name by {}
            assert forall|i: int| 0 < i < w.dirs.len() implies (#[trigger] w.dirs[i]).rel.len() > 0
                && w.dirs[i].name == w.dirs[i].rel.last() by {
                assert(u.dirs[i].rel.len() > 0);
            }
            assert forall|p: int| 0 <= p < known.len() implies #[trigger] stands_in(
                w,
                p,
                dir_names(known[p].path, root),
            ) by {
                if p < had.len() {
                    assert(stands_in(t, p, dir_names(had[p].path, root)));
                    let d = choose|d: int|
                        0 <= d < t.dirs.len() && (#[trigger] t.dirs[d]).rel == dir_names(
                            had[p].path,
                            root,
                        ) && t.dirs[d].child_files.contains(p) && t.files[p].parent_id
                            == t.dirs[d].id;
                    let own = t.dirs[d].child_files;
                    let k = choose|k: int| 0 <= k < own.len() && own[k] == p;
                    assert(u.dirs[d].child_files == own);
                    assert(w.dirs[d].child_files[k] == p);
                    assert(w.files[p] == t.files[p]);
                    assert(w.dirs[d].rel == u.dirs[d].rel);
                } else {
                    let own = u.dirs[at].child_files;
                    assert(w.dirs[at].child_files[own.len() as int] == p);
                    assert(w.dirs[at].rel == names);
                }
            }
        }
    }
}

/// The directories that lead to a file in a directory of the library are those that lead on from the
/// root to the directory.
pub proof fn names_lead_on_from_the_root(root: Seq<char>, dir: Seq<char>, name: Seq<char>)
    requires
        is_name(name),
        dir.len() > 0,
        within(dir, root),
    ensures
        dir_names(dir.push('/') + name, root) == without_ups(
            components(dir).skip(components(root).len() as int),
        ),
        dir_names(root.push('/') + name, root) == Seq::<Seq<char>>::empty() || root.len() == 0,
{
    let n = components(root).len() as int;
    let path = dir.push('/') + name;
    names_stand_in_their_directory(dir, name);
    let c = components(path);
    assert(c.subrange(n, c.len() - 1) =~= components(dir).skip(n));
    assert(components(root) =~= c.subrange(0, n)) by {
        assert(components(root) == components(dir).subrange(0, n));
        assert(c.subrange(0, n) =~= components(dir).subrange(0, n));
    }
    if root.len() > 0 {
        names_stand_in_their_directory(root, name);
        let b = components(root.push('/') + name);
        assert(b.subrange(n, b.len() - 1) =~= Seq::empty());
        assert(without_ups(Seq::empty()) =~= Seq::empty());
    }
}

/// Names without a step up are all kept, in order.
pub proof fn names_without_ups_are_kept(c: Seq<Seq<char>>)
    requires
        !c.contains(".."@),
    ensures
        without_ups(c) == c,
    decreases c.len(),
{
    if c.len() > 0 {
        assert(c[c.len() - 1] == c.last());
        assert forall|x: Seq<char>| c.drop_last().contains(x) implies c.contains(x) by {
            let i = choose|i: int| 0 <= i < c.drop_last().len() && c.drop_last()[i] == x;
            assert(c[i] == x);
        }
        names_without_ups_are_kept(c.drop_last());
        assert(c.drop_last().push(c.last()) =~= c);
    }
}

proof fn file_objects_are(
    t: Tree,
    played: Seq<Scanned>,
    at: Seq<int>,
    parent_id: Seq<char>,
    base: Seq<char>,
)
    requires
        forall|k: int| 0 <= k < at.len() ==> 0 <= #[trigger] at[k] < played.len(),
    ensures
        file_objects(t, played, at, parent_id, base).len() == at.len(),
        forall|k: int|
            0 <= k < at.len() ==> #[trigger] file_objects(t, played, at, parent_id, base)[k]
                == file_object(t.files[at[k]].id, parent_id, played[at[k]], base),
    decreases at.len(),
{
    if at.len() > 0 {
        let front = at.drop_last();
        assert forall|k: int| 0 <= k < front.len() implies 0 <= #[trigger] front[k] < played.len() by {
            assert(front[k] == at[k]);
        }
        file_objects_are(t, played, front, parent_id, base);
        assert(0 <= at[at.len() - 1] < played.len());
    }
}

proof fn leaf_at_finds(files: Seq<Leaf>, i: int)
    requires
        0 <= i < files.len(),
        forall|j: int| 0 <= j < files.len() && j != i ==> (#[trigger] files[j]).id != files[i].id,
    ensures
        leaf_at(files, files[i].id) == i,
    decreases files.len(),
{
    if i < files.len() - 1 {
        let front = files.drop_last();
        assert(files[files.len() - 1].id != files[i].id);
        assert forall|j: int| 0 <= j < front.len() && j != i implies (#[trigger] front[j]).id
            != front[i].id by {
            assert(files[j].id != files[i].id);
        }
        leaf_at_finds(front, i);
    }
}

/// Browsing a directory lists what is in it: its directories under their own names, then its files
/// under their own labels, every one with the directory as its parent, and as many as the total says.
/// A file is listed with the address that streams it, its size and its media type.
pub proof fn a_directory_lists_what_is_in_it(
    t: Tree,
    played: Seq<Scanned>,
    id: Seq<char>,
    base: Seq<char>,
)
    requires
        tree_of(t, played),
        files_homed(t),
        dirs_homed(t),
        dirs_named(t),
        dir_at(t.dirs, id) >= 0,
    ensures
        match browsed(t, played, id, BrowseFlag::DirectChildren, 0, 0, base) {
            Err(_) => false,
            Ok((objects, total)) => {
                let d = t.dirs[dir_at(t.dirs, id)];
                let n = d.child_dirs.len() as int;
                &&& d.id == id
                &&& total == objects.len()
                &&& objects.len() == n + d.child_files.len()
                &&& forall|k: int| 0 <= k < objects.len() ==> (#[trigger] objects[k]).parent_id == id
                &&& forall|k: int|
                    0 <= k < n ==> {
                        let o = #[trigger] objects[k];
                        &&& o.class == ObjectClass::StorageFolder
                        &&& o.resource is None
                        &&& o.id == t.dirs[d.child_dirs[k]].id
                        &&& t.dirs[d.child_dirs[k]].rel == d.rel.push(o.title)
                    }
                &&& forall|k: int|
                    n <= k < objects.len() ==> {
                        let o = #[trigger] objects[k];
                        let f = played[d.child_files[k - n]];
                        &&& o.class == ObjectClass::VideoItem
                        &&& o.id == t.files[d.child_files[k - n]].id
                        &&& o.title == label_of(f)
                        &&& o.resource == Some(
                            (
                                base + "/dlna/stream/"@ + o.id,
                                media_type(f.container, f.extension),
                                Some(f.size),
                            ),
                        )
                    }
            },
        },
{
    dir_at_is_there(t.dirs, id);
    let at = dir_at(t.dirs, id);
    let d = t.dirs[at];
    let n = d.child_dirs.len() as int;
    let all = children(t, played, at, base);
    assert forall|k: int| 0 <= k < d.child_files.len() implies 0 <= #[trigger] d.child_files[k]
        < played.len() by {
        assert(0 <= t.dirs[at].child_files[k] < t.files.len());
    }
    file_objects_are(t, played, d.child_files, d.id, base);
    pages_follow_on(all, 0, 1);
    let files = file_objects(t, played, d.child_files, d.id, base);
    assert(all.len() == n + files.len());
    assert forall|k: int| n <= k < all.len() implies #[trigger] all[k] == files[k - n] by {}
    assert forall|k: int| 0 <= k < n implies {
        let o = #[trigger] all[k];
        &&& o.parent_id == id
        &&& o.class == ObjectClass::StorageFolder
        &&& o.resource is None
        &&& o.id == t.dirs[d.child_dirs[k]].id
        &&& t.dirs[d.child_dirs[k]].rel == d.rel.push(o.title)
    } by {
        let c = t.dirs[at].child_dirs[k];
        assert(at < c < t.dirs.len() && t.dirs[c].parent_id == d.id);
        assert(t.dirs[c].name == t.dirs[c].rel.last());
        assert(all[k] == folder_object(t.dirs[c]));
        assert(t.dirs[c].rel =~= t.dirs[c].rel.drop_last().push(t.dirs[c].rel.last()));
    }
    assert forall|k: int| 0 <= k < all.len() implies (#[trigger] all[k]).parent_id == id by {
        if k >= n {
            assert(all[k] == files[k - n]);
        }
    }
}

/// Asking about an object that a directory lists gives that very object, and no other. (Two files of
/// one path would share their id.)
pub proof fn listed_objects_can_be_asked_about(
    t: Tree,
    played: Seq<Scanned>,
    id: Seq<char>,
    base: Seq<char>,
    k: int,
)
    requires
        tree_of(t, played),
        files_homed(t),
        dirs_homed(t),
        dirs_named(t),
        dir_at(t.dirs, id) >= 0,
        forall|i: int, j: int|
            0 <= i < j < t.files.len() ==> (#[trigger] t.files[i]).key != (#[trigger] t.files[j]).key,
        0 <= k < children(t, played, dir_at(t.dirs, id), base).len(),
    ensures
        ({
            let o = children(t, played, dir_at(t.dirs, id), base)[k];
            browsed(t, played, o.id, BrowseFlag::Metadata, 0, 0, base) == Ok::<
                (Seq<Object>, nat),
                nat,
            >((seq![o], 1))
        }),
{
    dir_at_is_there(t.dirs, id);
    let at = dir_at(t.dirs, id);
    let d = t.dirs[at];
    let n = d.child_dirs.len() as int;
    let all = children(t, played, at, base);
    let o = all[k];
    a_directory_lists_what_is_in_it(t, played, id, base);
    pages_follow_on(all, 0, 1);
    assert forall|i: int, j: int| 0 <= i < j < t.dirs.len() implies (#[trigger] t.dirs[i]).id != (
    #[trigger] t.dirs[j]).id by {}
    if k < n {
        let c = t.dirs[at].child_dirs[k];
        assert(at < c < t.dirs.len());
        dir_at_finds(t.dirs, c);
        assert(t.dirs[0].id != t.dirs[c].id);
    } else {
        let p = t.dirs[at].child_files[k - n];
        assert(0 <= p < t.files.len() && t.files[p].parent_id == d.id);
        assert forall|k: int| 0 <= k < d.child_files.len() implies 0 <= #[trigger] d.child_files[k]
            < played.len() by {
            assert(0 <= t.dirs[at].child_files[k] < t.files.len());
        }
        file_objects_are(t, played, d.child_files, d.id, base);
        let files = file_objects(t, played, d.child_files, d.id, base);
        assert(all[k] == files[k - n]);
        assert(o == file_object(t.files[p].id, d.id, played[p], base));
        dir_at_is_there(t.dirs, o.id);
        if dir_at(t.dirs, o.id) >= 0 {
            directories_and_files_differ(t, dir_at(t.dirs, o.id), p);
        }
        directories_and_files_differ(t, 0, p);
        assert forall|j: int| 0 <= j < t.files.len() && j != p implies (#[trigger] t.files[j]).id
            != t.files[p].id by {
            if j < p {
                assert(t.files[j].key != t.files[p].key);
            } else {
                assert(t.files[p].key != t.files[j].key);
            }
        }
        leaf_at_finds(t.files, p);
    }
}

/// The address under which a file is listed is one that streams: what follows the server's own
/// address leads to the stream of the file's id, and nowhere else, whether it is fetched or only asked
/// about. Nothing else is done with it.
pub proof fn listed_addresses_stream(id: Seq<char>, r: Route)
    ensures
        routed("GET"@, "/dlna/stream/"@ + id, r) <==> r is Stream && r->Stream_0@ == id,
        routed("HEAD"@, "/dlna/stream/"@ + id, r) <==> r is Stream && r->Stream_0@ == id,
        routed("POST"@, "/dlna/stream/"@ + id, r) <==> r is NotFound,
{
    let path = "/dlna/stream/"@ + id;
    reveal_strlit("GET");
    reveal_strlit("HEAD");
    reveal_strlit("POST");
    reveal_strlit("/dlna/stream/");
    reveal_strlit("/dlna/desc.xml");
    reveal_strlit("/dlna/cd.xml");
    reveal_strlit("/dlna/cm.xml");
    reveal_strlit("/dlna/cd/control");
    reveal_strlit("/dlna/cm/control");
    assert("GET"@.len() == 3 && "HEAD"@.len() == 4 && "POST"@.len() == 4);
    assert("HEAD"@[0] == 'H' && "POST"@[0] == 'P');
    assert(path[6] == 's');
    assert("/dlna/desc.xml"@[6] == 'd' && "/dlna/cd.xml"@[6] == 'c' && "/dlna/cm.xml"@[6] == 'c');
    assert("/dlna/cd/control"@[6] == 'c' && "/dlna/cm/control"@[6] == 'c');
    assert("/dlna/stream/"@ =~= path.subrange(0, 13));
    assert(path.skip(13) =~= id);
}

/// The action that a header names decides what is done: a header that names browsing browses, one
/// that names no browsing but a search searches, and so on; a header that names none is refused.
pub proof fn headers_name_their_action(p: Seq<char>, q: Seq<char>)
    ensures
        directory_action(Some(p.add("#Browse"@).add(q))) == DirectoryAction::Browse,
        directory_action(Some(p.add("#Search"@).add(q))) == DirectoryAction::Search || occurs(
            p.add("#Search"@).add(q),
            "#Browse"@,
        ),
        directory_action(Some(p.add("#GetSystemUpdateID"@).add(q)))
            == DirectoryAction::GetSystemUpdateId || occurs(
            p.add("#GetSystemUpdateID"@).add(q),
            "#Browse"@,
        ) || occurs(p.add("#GetSystemUpdateID"@).add(q), "#Search"@),
        manager_action(Some(p.add("#GetProtocolInfo"@).add(q))) == ManagerAction::GetProtocolInfo,
        manager_action(Some(p.add("#GetCurrentConnectionIDs"@).add(q)))
            == ManagerAction::GetCurrentConnectionIds || occurs(
            p.add("#GetCurrentConnectionIDs"@).add(q),
            "#GetProtocolInfo"@,
        ),
        !p.contains('#') ==> directory_action(Some(p)) == DirectoryAction::Invalid
            && manager_action(Some(p)) == ManagerAction::Invalid,
{
    occurs_between(p.add("#Browse"@).add(q), "#Browse"@);
    occurs_between(p.add("#Search"@).add(q), "#Search"@);
    occurs_between(p.add("#GetSystemUpdateID"@).add(q), "#GetSystemUpdateID"@);
    occurs_between(p.add("#GetProtocolInfo"@).add(q), "#GetProtocolInfo"@);
    occurs_between(p.add("#GetCurrentConnectionIDs"@).add(q), "#GetCurrentConnectionIDs"@);
    if !p.contains('#') {
        reveal_strlit("#Browse");
        reveal_strlit("#Search");
        reveal_strlit("#GetSystemUpdateID");
        reveal_strlit("#GetProtocolInfo");
        reveal_strlit("#GetCurrentConnectionIDs");
        no_sign_no_action(p, "#Browse"@);
        no_sign_no_action(p, "#Search"@);
        no_sign_no_action(p, "#GetSystemUpdateID"@);
        no_sign_no_action(p, "#GetProtocolInfo"@);
        no_sign_no_action(p, "#GetCurrentConnectionIDs"@);
    }
}

proof fn no_sign_no_action(header: Seq<char>, action: Seq<char>)
    requires
        !header.contains('#'),
        action.len() > 0,
        action[0] == '#',
    ensures
        !occurs(header, action),
{
    occurs_between(header, action);
    if occurs(header, action) {
        let (p, q) = choose|p: Seq<char>, q: Seq<char>| header == #[trigger] p.add(action).add(q);
        assert(header[p.len() as int] == '#');
    }
}

/// What is announced is announced under the server's own UUID: every unique name is the UUID alone,
/// for the UUID itself, or the UUID and the kind that is announced.
pub proof fn announcements_carry_the_uuid(uuid: Seq<char>, i: int)
    requires
        0 <= i < announced(uuid).len(),
    ensures
        announced(uuid).len() == 5,
        ({
            let me = "uuid:"@ + uuid;
            let (kind, name) = announced(uuid)[i];
            name == (if kind == me {
                me
            } else {
                me + "::"@ + kind
            })
        }),
{
    let me = "uuid:"@ + uuid;
    reveal_strlit("uuid:");
    reveal_strlit("::");
    reveal_strlit("upnp:rootdevice");
    reveal_strlit("::upnp:rootdevice");
    reveal_strlit("urn:schemas-upnp-org:device:MediaServer:1");
    reveal_strlit("::urn:schemas-upnp-org:device:MediaServer:1");
    reveal_strlit("urn:schemas-upnp-org:service:ContentDirectory:1");
    reveal_strlit("::urn:schemas-upnp-org:service:ContentDirectory:1");
    reveal_strlit("urn:schemas-upnp-org:service:ConnectionManager:1");
    reveal_strlit("::urn:schemas-upnp-org:service:ConnectionManager:1");
    let (kind, name) = announced(uuid)[i];
    assert(me[1] == 'u');
    if i == 0 {
        assert(kind[1] == 'p');
        assert(name =~= me + "::"@ + kind);
    } else if i == 2 {
        assert(kind[1] == 'r');
        assert(name =~= me + "::"@ + kind);
    } else if i == 3 {
        assert(kind[1] == 'r');
        assert(name =~= me + "::"@ + kind);
    } else if i == 4 {
        assert(kind[1] == 'r');
        assert(name =~= me + "::"@ + kind);
    }
}

/// Faults are told apart by their description: an action that is not offered, arguments that cannot be
/// read, an object that is not there.
pub proof fn faults_are_told_apart(a: nat, b: nat)
    requires
        a == 401 || a == 402 || a == 701,
        a != b,
    ensures
        fault_text(a) != fault_text(b),
        fault_text(701) == "No such object"@,
        fault_text(402) == "Invalid Args"@,
        fault_text(401) == "Invalid Action"@,
{
    reveal_strlit("Invalid Action");
    reveal_strlit("Invalid Args");
    reveal_strlit("No such object");
    reveal_strlit("Unsupported or invalid search criteria");
    assert("Invalid Action"@.len() == 14 && "Invalid Args"@.len() == 12);
    assert("No such object"@.len() == 14 && "Unsupported or invalid search criteria"@.len() == 38);
    assert("Invalid Action"@[0] == 'I' && "No such object"@[0] == 'N');
}

proof fn leaf_at_is_there(files: Seq<Leaf>, id: Seq<char>)
    ensures
        -1 <= leaf_at(files, id) < files.len(),
        leaf_at(files, id) >= 0 ==> files[leaf_at(files, id)].id == id,
    decreases files.len(),
{
    if files.len() > 0 && files.last().id != id {
        leaf_at_is_there(files.drop_last(), id);
    }
}

/// A request that cannot be read, and one for an object that is not there, lists nothing: each is
/// answered with its fault.
pub proof fn what_is_not_there_is_a_fault(
    t: Tree,
    played: Seq<Scanned>,
    id: Seq<char>,
    flag: BrowseFlag,
    start: int,
    count: int,
    base: Seq<char>,
)
    requires
        id != "0"@,
        forall|i: int| 0 <= i < t.dirs.len() ==> (#[trigger] t.dirs[i]).id != id,
        forall|i: int| 0 <= i < t.files.len() ==> (#[trigger] t.files[i]).id != id,
    ensures
        browse_answer(t, played, None, base) == Err::<(Seq<Object>, nat), nat>(402),
        browsed(t, played, id, flag, start, count, base) == Err::<(Seq<Object>, nat), nat>(701),
{
    dir_at_is_there(t.dirs, id);
    leaf_at_is_there(t.files, id);
}

/// A file is offered under the address that streams its id, as what it is and with its size; a directory
/// is offered by its name and streams nothing. Both say where they stand.
pub proof fn objects_are_what_they_stand_for(
    id: Seq<char>,
    parent: Seq<char>,
    f: Scanned,
    base: Seq<char>,
    d: Dir,
)
    ensures
        ({
            let o = file_object(id, parent, f, base);
            &&& o.id == id && o.parent_id == parent && o.title == label_of(f)
            &&& o.class == ObjectClass::VideoItem
            &&& match o.resource {
                Some((address, kind, size)) => {
                    &&& exists|p: Seq<char>| #[trigger] p.add("/dlna/stream/"@).add(id) == address && p
                        == base
                    &&& kind == media_type(f.container, f.extension)
                    &&& size == Some(f.size)
                },
                None => false,
            }
        }),
        ({
            let o = folder_object(d);
            &&& o.id == d.id && o.parent_id == d.parent_id && o.title == d.name
            &&& o.class == ObjectClass::StorageFolder
            &&& o.resource is None
        }),
{
    assert(base.add("/dlna/stream/"@).add(id) == base + "/dlna/stream/"@ + id);
}

/// The documents that describe the server are fetched, its services are called, and nothing else is
/// there.
pub proof fn documents_are_fetched_and_services_called(method: Seq<char>, path: Seq<char>, r: Route)
    requires
        routed(method, path, r),
    ensures
        r is Description <==> method == "GET"@ && path == "/dlna/desc.xml"@,
        r is ContentDirectoryInterface <==> method == "GET"@ && path == "/dlna/cd.xml"@,
        r is ConnectionManagerInterface <==> method == "GET"@ && path == "/dlna/cm.xml"@,
        r is ContentDirectoryControl <==> method == "POST"@ && path == "/dlna/cd/control"@,
        r is ConnectionManagerControl <==> method == "POST"@ && path == "/dlna/cm/control"@,
        r is Stream ==> (method == "GET"@ || method == "HEAD"@) && "/dlna/stream/"@.is_prefix_of(path),
{
    reveal_strlit("GET");
    reveal_strlit("HEAD");
    reveal_strlit("POST");
    reveal_strlit("/dlna/desc.xml");
    reveal_strlit("/dlna/cd.xml");
    reveal_strlit("/dlna/cm.xml");
    reveal_strlit("/dlna/cd/control");
    reveal_strlit("/dlna/cm/control");
    assert("GET"@.len() == 3 && "HEAD"@.len() == 4 && "POST"@.len() == 4);
    assert("/dlna/desc.xml"@.len() == 14 && "/dlna/cd.xml"@.len() == 12);
    assert("/dlna/cm.xml"@.len() == 12 && "/dlna/cd.xml"@[7] == 'd' && "/dlna/cm.xml"@[7] == 'm');
    assert("/dlna/cd/control"@.len() == 16 && "/dlna/cm/control"@.len() == 16);
    assert("/dlna/cd/control"@[7] == 'd' && "/dlna/cm/control"@[7] == 'm');
}

proof fn every_title_holds_nothing(played: Seq<Scanned>, at: Seq<int>, text: Seq<char>)
    requires
        text.len() == 0,
        forall|k: int| 0 <= k < at.len() ==> 0 <= #[trigger] at[k] < played.len(),
    ensures
        titled(played, at, text) == at,
    decreases at.len(),
{
    if at.len() > 0 {
        let front = at.drop_last();
        every_title_holds_nothing(played, front, text);
        let label = lower(label_of(played[at.last()]));
        assert(lower(text) =~= Seq::<char>::empty());
        crate::text::occurs_between(label, lower(text));
        assert(label =~= Seq::<char>::empty().add(lower(text)).add(label));
        assert(at =~= front.push(at.last()));
    } else {
        assert(titled(played, at, text) =~= at);
    }
}

/// A search that asks for nothing in particular finds what one for an empty text does, page by page:
/// every title holds that.
pub proof fn everything_is_found_where_nothing_is_asked(
    t: Tree,
    played: Seq<Scanned>,
    a: SearchRequest,
    b: SearchRequest,
    text: String,
    base: Seq<char>,
)
    requires
        a.container_id@ == b.container_id@,
        a.starting_index == b.starting_index,
        a.requested_count == b.requested_count,
        a.criteria is MatchAll,
        b.criteria == SearchCriteria::TitleContains(text),
        text@.len() == 0,
        forall|k: int|
            0 <= k < files_under(t, dir_at(t.dirs, a.container_id@)).len() ==> 0
                <= #[trigger] files_under(t, dir_at(t.dirs, a.container_id@))[k] < played.len(),
    ensures
        search_answer(t, played, Some(&a), base) == search_answer(t, played, Some(&b), base),
        search_answer(t, played, None, base) == Err::<(Seq<Object>, nat), nat>(402),
{
    every_title_holds_nothing(played, files_under(t, dir_at(t.dirs, a.container_id@)), text@);
}

} // verus!
