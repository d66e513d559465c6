//! Paths as sequences of components.

use vstd::prelude::*;
use vstd::string::*;

verus! {

/// A path: its components in order, directory segments first, the final name
/// last. The root directory is the component `/`, the current directory `.`
/// and the parent directory `..`; every other component is an ordinary name.
#[derive(Clone, Debug)]
pub struct FilePath {
    pub components: Vec<String>,
}

/// Whether a component is an ordinary name rather than `/`, `.` or `..`.
pub open spec fn is_normal(c: Seq<char>) -> bool {
    c != seq!['/'] && c != seq!['.'] && c != seq!['.', '.']
}

/// The final name of a path: its last component, where that is an ordinary
/// name.
pub open spec fn file_name_of(p: Seq<Seq<char>>) -> Option<Seq<char>> {
    if p.len() > 0 && is_normal(p.last()) {
        Some(p.last())
    } else {
        None
    }
}

/// Whether `i` is the place of the last dot of `name`.
pub open spec fn is_last_dot(name: Seq<char>, i: int) -> bool {
    &&& 0 <= i < name.len()
    &&& name[i] == '.'
    &&& forall|j: int| i < j < name.len() ==> name[j] != '.'
}

/// The extension of a file name: what follows its last dot, unless the name
/// has no dot or its only dot comes first.
pub open spec fn extension_of_name(name: Seq<char>) -> Option<Seq<char>> {
    if exists|i: int| 0 < i && is_last_dot(name, i) {
        let i = choose|i: int| 0 < i && is_last_dot(name, i);
        Some(name.subrange(i + 1, name.len() as int))
    } else {
        None
    }
}

/// The extension of a path: that of its final name.
pub open spec fn extension_of(p: Seq<Seq<char>>) -> Option<Seq<char>> {
    match file_name_of(p) {
        Some(name) => extension_of_name(name),
        None => None,
    }
}

/// Whether the path `root` is a prefix of the path `p`, component by
/// component.
pub open spec fn starts_with_path(p: Seq<Seq<char>>, root: Seq<Seq<char>>) -> bool {
    root.len() <= p.len() && p.take(root.len() as int) == root
}

/// How many leading components a path loses when it is taken relative to
/// `root`: those of `root` where the path lies under it, else none.
pub open spec fn stripped_len(p: Seq<Seq<char>>, root: Seq<Seq<char>>) -> nat {
    if starts_with_path(p, root) {
        root.len()
    } else {
        0
    }
}

/// A path relative to `root`: what follows `root` where the path lies under
/// it, else the whole path.
pub open spec fn relative_to(p: Seq<Seq<char>>, root: Seq<Seq<char>>) -> Seq<Seq<char>> {
    p.skip(stripped_len(p, root) as int)
}

/// The name a root directory is shown under: its final name, or its full
/// text where it has none, as the root of a filesystem has none.
pub open spec fn root_name_of(root: Seq<Seq<char>>, text: Seq<char>) -> Seq<char> {
    match file_name_of(root) {
        Some(name) => name,
        None => text,
    }
}

/// The paths of a list, each as its sequence of components.
pub open spec fn path_views(paths: Seq<FilePath>) -> Seq<Seq<Seq<char>>> {
    paths.map_values(|p: FilePath| p@)
}

impl View for FilePath {
    type V = Seq<Seq<char>>;

    open spec fn view(&self) -> Seq<Seq<char>> {
        self.components@.map_values(|s: String| s@)
    }
}

impl FilePath {
    /// A path of the given components.
    pub fn new(components: Vec<String>) -> (r: FilePath)
        ensures
            r.components == components,
    {
        FilePath { components }
    }

    /// How many components the path has.
    pub fn len(&self) -> (n: usize)
        ensures
            n == self@.len(),
    {
        self.components.len()
    }

    /// How many leading components the path loses when it is taken relative
    /// to `root`.
    pub fn strip_len(&self, root: &FilePath) -> (n: usize)
        ensures
            n == stripped_len(self@, root@),
            n <= self@.len(),
    {
        let k: usize = root.components.len();
        if k > self.components.len() {
            return 0;
        }
        let mut i: usize = 0;
        while i < k
            invariant
                k == root.components.len(),
                k <= self.components.len(),
                i <= k,
                forall|j: int| 0 <= j < i ==> self@[j] == root@[j],
            decreases k - i,
        {
            if self.components[i] != root.components[i] {
                assert(self@[i as int] != root@[i as int]);
                assert(self@.take(k as int)[i as int] == self@[i as int]);
                return 0;
            }
            i = i + 1;
        }
        assert(self@.take(k as int) =~= root@);
        k
    }

    /// The final name, if the path has one.
    pub fn file_name(&self) -> (r: Option<&str>)
        ensures
            r.is_some() == file_name_of(self@).is_some(),
            r.is_some() ==> r.unwrap()@ == file_name_of(self@).unwrap(),
    {
        let n: usize = self.components.len();
        if n == 0 {
            return None;
        }
        let last: &str = self.components[n - 1].as_str();
        assert(self@.last() == last@);
        let m: usize = last.unicode_len();
        if m == 1 {
            let c: char = last.get_char(0);
            if c == '/' || c == '.' {
                assert(last@ =~= seq![c]);
                return None;
            }
            assert(last@[0] != '/' && last@[0] != '.');
        } else if m == 2 {
            if last.get_char(0) == '.' && last.get_char(1) == '.' {
                assert(last@ =~= seq!['.', '.']);
                return None;
            }
            assert(last@[0] != '.' || last@[1] != '.');
        }
        assert(is_normal(last@)) by {
            assert(seq!['/'].len() == 1 && seq!['/'][0] == '/');
            assert(seq!['.'].len() == 1 && seq!['.'][0] == '.');
            assert(seq!['.', '.'].len() == 2 && seq!['.', '.'][0] == '.' && seq!['.', '.'][1] == '.');
        }
        Some(last)
    }
}

/// The name a root directory is shown under.
pub fn root_name(root: &FilePath, text: &str) -> (r: String)
    ensures
        r@ == root_name_of(root@, text@),
{
    match root.file_name() {
        Some(name) => String::from_str(name),
        None => String::from_str(text),
    }
}

/// The extension of a file name, if it has one.
pub fn name_extension(name: &str) -> (r: Option<&str>)
    ensures
        r.is_some() == extension_of_name(name@).is_some(),
        r.is_some() ==> r.unwrap()@ == extension_of_name(name@).unwrap(),
{
    let n: usize = name.unicode_len();
    let mut i: usize = n;
    while i > 0
        invariant
            n == name@.len(),
            i <= n,
            forall|j: int| i <= j < n ==> name@[j] != '.',
        decreases i,
    {
        i = i - 1;
        if name.get_char(i) == '.' {
            assert(is_last_dot(name@, i as int));
            if i == 0 {
                assert forall|k: int| 0 < k implies !is_last_dot(name@, k) by {}
                return None;
            }
            let ghost w = choose|k: int| 0 < k && is_last_dot(name@, k);
            assert(w == i);
            return Some(name.substring_char(i + 1, n));
        }
    }
    assert forall|k: int| 0 < k implies !is_last_dot(name@, k) by {}
    None
}

} // verus!
