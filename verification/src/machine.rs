//! Where programs are kept on a machine.
use vstd::prelude::*;
use vstd::string::*;

use crate::text::{chars_of, opt_str_view, opt_view, owned, views};

verus! {

/// The conventions of a machine.
#[derive(Debug, Clone)]
pub enum Machine {
    Unix,
    /// The directories that programs are installed in: what `LOCALAPPDATA`, `PROGRAMFILES` and
    /// `PROGRAMFILES(X86)` say, as far as they are set.
    Windows { bases: Vec<String> },
}

/// Whether a character is an ASCII letter.
pub open spec fn is_letter(c: char) -> bool {
    'a' <= c <= 'z' || 'A' <= c <= 'Z'
}

impl Machine {
    /// What stands between the components of a path.
    pub open spec fn separator(self) -> char {
        match self {
            Machine::Unix => '/',
            Machine::Windows { .. } => '\\',
        }
    }

    /// Whether a directory is a drive with nothing after its colon: the place where the drive stands,
    /// not its root.
    pub open spec fn bare_drive(self, dir: Seq<char>) -> bool {
        self is Windows && dir.len() == 2 && is_letter(dir[0]) && dir[1] == ':'
    }

    /// A name in a directory.
    pub open spec fn inside(self, dir: Seq<char>, name: Seq<char>) -> Seq<char> {
        if dir.len() == 0 || dir.last() == '/' || dir.last() == self.separator() || self.bare_drive(
            dir,
        ) {
            dir + name
        } else {
            dir + seq![self.separator()] + name
        }
    }

    /// A name in a directory, by way of the directories between them.
    pub open spec fn below(self, dir: Seq<char>, names: Seq<Seq<char>>) -> Seq<char>
        decreases names.len(),
    {
        if names.len() == 0 {
            dir
        } else {
            self.inside(self.below(dir, names.drop_last()), names.last())
        }
    }

    /// A name in a directory.
    pub fn enter(&self, dir: &str, name: &str) -> (r: String)
        ensures
            r@ == self.inside(dir@, name@),
    {
        let (sep, drives): (char, bool) = match self {
            Machine::Unix => ('/', false),
            Machine::Windows { .. } => ('\\', true),
        };
        let d = chars_of(dir);
        let bare = drives && d.len() == 2 && d[1] == ':' && (('a' <= d[0] && d[0] <= 'z') || ('A'
            <= d[0] && d[0] <= 'Z'));
        let mut out = owned(dir);
        if d.len() > 0 && d[d.len() - 1] != '/' && d[d.len() - 1] != sep && !bare {
            out.push(sep);
            assert(out@ =~= dir@ + seq![sep]);
        }
        out.append(name);
        out
    }

    /// A name in a directory inside a directory.
    pub fn enter2(&self, dir: &str, a: &str, name: &str) -> (r: String)
        ensures
            r@ == self.below(dir@, seq![a@, name@]),
    {
        proof {
            reveal_with_fuel(Machine::below, 3);
            assert(seq![a@, name@].drop_last() =~= seq![a@]);
            assert(seq![a@].drop_last() =~= Seq::<Seq<char>>::empty());
        }
        self.enter(self.enter(dir, a).as_str(), name)
    }

    /// A name in a directory, by way of two others.
    pub fn enter3(&self, dir: &str, a: &str, b: &str, name: &str) -> (r: String)
        ensures
            r@ == self.below(dir@, seq![a@, b@, name@]),
    {
        proof {
            assert(seq![a@, b@, name@].drop_last() =~= seq![a@, b@]);
        }
        self.enter(self.enter2(dir, a, b).as_str(), name)
    }
}

/// This user's home directory: what `HOME` says, or else `USERPROFILE`; `None` when that is empty.
pub fn home_dir(home: Option<&str>, profile: Option<&str>) -> (r: Option<String>)
    ensures
        opt_view(r) == (match (opt_str_view(home), opt_str_view(profile)) {
            (Some(h), _) => if h.len() > 0 {
                Some(h)
            } else {
                None
            },
            (None, Some(p)) => if p.len() > 0 {
                Some(p)
            } else {
                None
            },
            (None, None) => None,
        }),
{
    let set = match home {
        Some(h) => h,
        None => match profile {
            Some(p) => p,
            None => return None,
        },
    };
    if set.unicode_len() > 0 {
        Some(owned(set))
    } else {
        None
    }
}

/// The first of the candidates that is there.
pub open spec fn first_present(c: Seq<Seq<char>>, present: Seq<bool>, i: int) -> Option<Seq<char>>
    decreases c.len() - i,
{
    if i < 0 || i >= c.len() || i >= present.len() {
        None
    } else if present[i] {
        Some(c[i])
    } else {
        first_present(c, present, i + 1)
    }
}

/// The program to run: the first candidate that is a file, or else the bare name where the search
/// path has it.
pub fn choose_program(
    candidates: &Vec<String>,
    present: &Vec<bool>,
    on_path: bool,
    bare: &str,
) -> (r: Option<String>)
    requires
        candidates@.len() == present@.len(),
    ensures
        opt_view(r) == (match first_present(views(candidates@), present@, 0) {
            Some(c) => Some(c),
            None => if on_path {
                Some(bare@)
            } else {
                None
            },
        }),
{
    let ghost c = views(candidates@);
    let mut i: usize = 0;
    while i < candidates.len()
        invariant
            i <= candidates@.len(),
            candidates@.len() == present@.len(),
            c == views(candidates@),
            first_present(c, present@, 0) == first_present(c, present@, i as int),
        decreases candidates@.len() - i,
    {
        if present[i] {
            return Some(candidates[i].clone());
        }
        i += 1;
    }
    if on_path {
        Some(owned(bare))
    } else {
        None
    }
}

/// A name in a directory ends in the name and begins with the directory, with nothing between them but
/// one separator where the directory ends in none.
pub proof fn names_stand_in_directories(m: Machine, dir: Seq<char>, name: Seq<char>)
    ensures
        dir.is_prefix_of(m.inside(dir, name)),
        name.is_suffix_of(m.inside(dir, name)),
        m.inside(dir, name).len() <= dir.len() + 1 + name.len(),
        dir.len() > 0 && dir.last() != '/' && dir.last() != m.separator() && !m.bare_drive(dir)
            ==> m.inside(dir, name)[dir.len() as int] == (if m is Unix {
            '/'
        } else {
            '\\'
        }),
{
    let p = m.inside(dir, name);
    assert(p.subrange(0, dir.len() as int) =~= dir);
    assert(p.subrange(p.len() - name.len(), p.len() as int) =~= name);
}

/// The first candidate that is there is chosen: none before it is; and none is chosen only where none
/// is there.
pub proof fn the_first_that_is_there(c: Seq<Seq<char>>, present: Seq<bool>, i: int)
    requires
        c.len() == present.len(),
        0 <= i <= c.len(),
    ensures
        match first_present(c, present, i) {
            Some(p) => exists|k: int|
                i <= k < c.len() && #[trigger] c[k] == p && present[k] && forall|j: int|
                    i <= j < k ==> !#[trigger] present[j],
            None => forall|j: int| i <= j < c.len() ==> !#[trigger] present[j],
        },
    decreases c.len() - i,
{
    if i < c.len() {
        if present[i] {
            assert(c[i] == first_present(c, present, i)->0);
        } else {
            the_first_that_is_there(c, present, i + 1);
            match first_present(c, present, i + 1) {
                Some(p) => {
                    let k = choose|k: int|
                        i + 1 <= k < c.len() && #[trigger] c[k] == p && present[k] && forall|j: int|
                            i + 1 <= j < k ==> !#[trigger] present[j];
                    assert(c[k] == p && present[k]);
                },
                None => {},
            }
        }
    }
}

} // verus!
