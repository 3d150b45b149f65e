//! The in-memory file tree of the disc image: directories and files by
//! name, with path resolution and create-missing-folders-on-write, used to
//! locate and replace the executable, the banner, and any replaced files.

use vstd::prelude::*;
use crate::chars::str_to_chars;

verus! {

/// A directory entry: a subdirectory or a file.
pub enum Node {
    Directory(Box<Directory>),
    File(File),
}

/// A named directory and its children, in insertion order.
pub struct Directory {
    pub name: String,
    pub children: Vec<Node>,
}

/// A named file and its bytes.
pub struct File {
    pub name: String,
    pub data: Vec<u8>,
}

impl Node {
    pub fn as_directory(&self) -> (r: Option<&Directory>)
        ensures
            match r {
                Some(d) => self matches Node::Directory(b) && *d == **b,
                None => self is File,
            },
    {
        if let Node::Directory(ref dir) = self {
            Some(dir)
        } else {
            None
        }
    }

    pub fn as_directory_mut(&mut self) -> (r: Option<&mut Directory>)
        ensures
            *old(self) is File ==> r is None && *final(self) == *old(self),
            *old(self) is Directory ==> match r {
                Some(d) => *d == *(*old(self))->Directory_0 && (*final(self) matches Node::Directory(
                    b2,
                ) && *b2 == *final(d)),
                None => false,
            },
    {
        if let Node::Directory(ref mut dir) = self {
            Some(dir)
        } else {
            None
        }
    }

    pub fn as_file(&self) -> (r: Option<&File>)
        ensures
            match r {
                Some(f) => self matches Node::File(g) && *f == *g,
                None => self is Directory,
            },
    {
        if let Node::File(ref file) = self {
            Some(file)
        } else {
            None
        }
    }

    pub fn as_file_mut(&mut self) -> (r: Option<&mut File>)
        ensures
            *old(self) is Directory ==> r is None && *final(self) == *old(self),
            *old(self) is File ==> match r {
                Some(f) => *f == (*old(self))->File_0 && (*final(self) matches Node::File(g2) && g2
                    == *final(f)),
                None => false,
            },
    {
        if let Node::File(ref mut file) = self {
            Some(file)
        } else {
            None
        }
    }
}

impl File {
    pub fn new(name: String, data: Vec<u8>) -> (r: File)
        ensures
            r.name == name,
            r.data == data,
    {
        File { name, data }
    }
}

/// The first child at or past `i` that is a directory named `name`.
pub open spec fn spec_find_dir(children: Seq<Node>, name: Seq<char>, i: int) -> Option<int>
    decreases children.len() - i,
{
    if i < 0 || i >= children.len() {
        None
    } else if children[i] matches Node::Directory(d) && d.name@ == name {
        Some(i)
    } else {
        spec_find_dir(children, name, i + 1)
    }
}

/// The first child at or past `i` that is a file named `name`.
pub open spec fn spec_find_file(children: Seq<Node>, name: Seq<char>, i: int) -> Option<int>
    decreases children.len() - i,
{
    if i < 0 || i >= children.len() {
        None
    } else if children[i] matches Node::File(f) && f.name@ == name {
        Some(i)
    } else {
        spec_find_file(children, name, i + 1)
    }
}

/// The index of the first `/` in `s`, or `s.len()`.
pub open spec fn spec_first_slash(s: Seq<char>, i: int) -> int
    decreases s.len() - i,
{
    if 0 <= i < s.len() && s[i] != '/' {
        spec_first_slash(s, i + 1)
    } else {
        i
    }
}

pub proof fn lemma_first_slash_bounds(s: Seq<char>, i: int)
    requires
        0 <= i <= s.len(),
    ensures
        i <= spec_first_slash(s, i) <= s.len(),
    decreases s.len() - i,
{
    if i < s.len() && s[i] != '/' {
        lemma_first_slash_bounds(s, i + 1);
    }
}

/// The file a slash-separated path names under `d`: every segment but the
/// last names a subdirectory, the last names a file; the first match wins
/// at every step.
pub open spec fn spec_resolve_file(d: Directory, path: Seq<char>) -> Option<File>
    decreases path.len(),
    via spec_resolve_file_dec
{
    let cut = spec_first_slash(path, 0);
    if cut == path.len() {
        match spec_find_file(d.children@, path, 0) {
            Some(k) => Some(d.children@[k]->File_0),
            None => None,
        }
    } else {
        let head = path.subrange(0, cut);
        let rest = path.subrange(cut + 1, path.len() as int);
        match spec_find_dir(d.children@, head, 0) {
            Some(k) => spec_resolve_file(*d.children@[k]->Directory_0, rest),
            None => None,
        }
    }
}

#[via_fn]
proof fn spec_resolve_file_dec(d: Directory, path: Seq<char>) {
    lemma_first_slash_bounds(path, 0);
}

/// The last `/`-separated segment of a path: the name of the file the path
/// addresses.
pub open spec fn spec_last_segment(path: Seq<char>) -> Seq<char>
    decreases path.len(),
    via spec_last_segment_dec
{
    let cut = spec_first_slash(path, 0);
    if cut == path.len() {
        path
    } else {
        spec_last_segment(path.subrange(cut + 1, path.len() as int))
    }
}

#[via_fn]
proof fn spec_last_segment_dec(path: Seq<char>) {
    lemma_first_slash_bounds(path, 0);
}

/// The first matching child, scanning the directory's children.
fn find_dir_index(children: &Vec<Node>, name: &str) -> (r: Option<usize>)
    ensures
        match r {
            Some(k) => k < children@.len() && Some(k as int) == spec_find_dir(
                children@,
                name@,
                0,
            ),
            None => spec_find_dir(children@, name@, 0) is None,
        },
{
    let n = children.len();
    let mut i: usize = 0;
    while i < n
        invariant
            i <= n,
            n == children@.len(),
            spec_find_dir(children@, name@, 0) == spec_find_dir(children@, name@, i as int),
        decreases n - i,
    {
        match &children[i] {
            Node::Directory(d) => {
                if str_equal(d.name.as_str(), name) {
                    return Some(i);
                }
            },
            Node::File(_) => {},
        }
        i += 1;
    }
    None
}

fn find_file_index(children: &Vec<Node>, name: &str) -> (r: Option<usize>)
    ensures
        match r {
            Some(k) => k < children@.len() && Some(k as int) == spec_find_file(
                children@,
                name@,
                0,
            ),
            None => spec_find_file(children@, name@, 0) is None,
        },
{
    let n = children.len();
    let mut i: usize = 0;
    while i < n
        invariant
            i <= n,
            n == children@.len(),
            spec_find_file(children@, name@, 0) == spec_find_file(children@, name@, i as int),
        decreases n - i,
    {
        match &children[i] {
            Node::File(f) => {
                if str_equal(f.name.as_str(), name) {
                    return Some(i);
                }
            },
            Node::Directory(_) => {},
        }
        i += 1;
    }
    None
}

/// Whether two string slices hold the same characters.
fn str_equal(a: &str, b: &str) -> (r: bool)
    ensures
        r == (a@ == b@),
{
    let sa: String = a.to_owned();
    let sb: String = b.to_owned();
    sa == sb
}

impl Directory {
    pub fn new(name: String) -> (r: Directory)
        ensures
            r.name == name,
            r.children@ == Seq::<Node>::empty(),
    {
        Directory { name, children: Vec::new() }
    }

    /// The file a slash-separated path names, walking subdirectories for
    /// every segment but the last.
    pub fn resolve_path(&self, path: &str) -> (r: Option<&File>)
        ensures
            match r {
                Some(f) => Some(*f) == spec_resolve_file(*self, path@),
                None => spec_resolve_file(*self, path@) is None,
            },
        decreases path@.len(),
    {
        let v = str_to_chars(path);
        let n = v.len();
        let mut cut: usize = 0;
        while cut < n && v[cut] != '/'
            invariant
                cut <= n,
                n == v@.len(),
                v@ == path@,
                forall|k: int| 0 <= k < cut ==> v@[k] != '/',
            decreases n - cut,
        {
            cut += 1;
        }
        proof {
            lemma_first_slash_scan(v@, cut as int);
        }
        if cut == n {
            proof {
                lemma_find_file_props(self.children@, path@, 0);
            }
            match find_file_index(&self.children, path) {
                Some(k) => {
                    match &self.children[k] {
                        Node::File(f) => Some(f),
                        Node::Directory(_) => None,
                    }
                },
                None => None,
            }
        } else {
            let head = path.substring_char(0, cut);
            let rest = path.substring_char(cut + 1, n);
            proof {
                assert(head@ =~= path@.subrange(0, cut as int));
                assert(rest@ =~= path@.subrange(cut + 1, n as int));
            }
            proof {
                lemma_find_dir_props(self.children@, head@, 0);
            }
            match find_dir_index(&self.children, head) {
                Some(k) => {
                    match &self.children[k] {
                        Node::Directory(d) => d.resolve_path(rest),
                        Node::File(_) => None,
                    }
                },
                None => None,
            }
        }
    }
}

/// Whether `name` ends with the executable's extension.
pub open spec fn spec_is_dol_name(name: Seq<char>) -> bool {
    name.len() >= 4 && name[name.len() - 4] == '.' && name[name.len() - 3] == 'd' && name[name.len()
        - 2] == 'o' && name[name.len() - 1] == 'l'
}

/// The first child at or past `i` that is a file with the executable's
/// extension.
pub open spec fn spec_find_dol(children: Seq<Node>, i: int) -> Option<int>
    decreases children.len() - i,
{
    if i < 0 || i >= children.len() {
        None
    } else if children[i] matches Node::File(f) && spec_is_dol_name(f.name@) {
        Some(i)
    } else {
        spec_find_dol(children, i + 1)
    }
}

pub proof fn lemma_find_dol_props(children: Seq<Node>, i: int)
    ensures
        spec_find_dol(children, i) matches Some(k) ==> i <= k < children.len() && (
        children[k] matches Node::File(f) && spec_is_dol_name(f.name@)),
    decreases children.len() - i,
{
    if 0 <= i < children.len() && !(children[i] matches Node::File(f) && spec_is_dol_name(
        f.name@,
    )) {
        lemma_find_dol_props(children, i + 1);
    }
}

fn find_dol_index(children: &Vec<Node>) -> (r: Option<usize>)
    ensures
        match r {
            Some(k) => k < children@.len() && Some(k as int) == spec_find_dol(children@, 0),
            None => spec_find_dol(children@, 0) is None,
        },
{
    let n = children.len();
    let mut i: usize = 0;
    while i < n
        invariant
            i <= n,
            n == children@.len(),
            spec_find_dol(children@, 0) == spec_find_dol(children@, i as int),
        decreases n - i,
    {
        match &children[i] {
            Node::File(f) => {
                let v = str_to_chars(f.name.as_str());
                let m = v.len();
                if m >= 4 && v[m - 4] == '.' && v[m - 3] == 'd' && v[m - 2] == 'o' && v[m - 1]
                    == 'l' {
                    return Some(i);
                }
            },
            Node::Directory(_) => {},
        }
        i += 1;
    }
    None
}

impl Directory {
    /// The banner file, by its fixed name; the caller's writes land on that
    /// child and nothing else moves.
    pub fn banner_mut(&mut self) -> (r: Option<&mut File>)
        ensures
            (r is Some) == (spec_find_file(old(self).children@, "opening.bnr"@, 0) is Some),
            r is None ==> *final(self) == *old(self),
            r matches Some(f) ==> ({
                let k = spec_find_file(old(self).children@, "opening.bnr"@, 0)->0;
                &&& *f == old(self).children@[k]->File_0
                &&& final(self).name == old(self).name
                &&& final(self).children@ == old(self).children@.update(k, Node::File(*final(f)))
            }),
    {
        let k = match find_file_index(&self.children, "opening.bnr") {
            None => {
                return None;
            },
            Some(k) => k,
        };
        proof {
            lemma_find_file_props(self.children@, "opening.bnr"@, 0);
        }
        let child = vstd::std_specs::vec::vec_index_mut(&mut self.children, k);
        match child {
            Node::File(f) => Some(f),
            Node::Directory(_) => vstd::pervasive::unreached(),
        }
    }

    /// The executable inside the system directory: the directory with the
    /// system name is found first, then its first file with the
    /// executable's extension; the caller's writes land on that child and
    /// nothing else moves.
    pub fn main_dol_mut(&mut self) -> (r: Option<&mut File>)
        ensures
            (r is Some) == (spec_find_dir(old(self).children@, "&&systemdata"@, 0) matches Some(k)
                && spec_find_dol(old(self).children@[k]->Directory_0.children@, 0) is Some),
            r is None ==> *final(self) == *old(self),
            r matches Some(f) ==> ({
                let k = spec_find_dir(old(self).children@, "&&systemdata"@, 0)->0;
                let d = *old(self).children@[k]->Directory_0;
                let j = spec_find_dol(d.children@, 0)->0;
                &&& *f == d.children@[j]->File_0
                &&& final(self).name == old(self).name
                &&& final(self).children@.len() == old(self).children@.len()
                &&& forall|m: int|
                    0 <= m < old(self).children@.len() && m != k ==> final(self).children@[m]
                        == old(self).children@[m]
                &&& (final(self).children@[k] matches Node::Directory(nb) && nb.name == d.name
                    && nb.children@ == d.children@.update(j, Node::File(*final(f))))
            }),
    {
        let k = match find_dir_index(&self.children, "&&systemdata") {
            None => {
                return None;
            },
            Some(k) => k,
        };
        proof {
            lemma_find_dir_props(self.children@, "&&systemdata"@, 0);
        }
        let j_opt: Option<usize> = match &self.children[k] {
            Node::Directory(b) => find_dol_index(&b.children),
            Node::File(_) => None,
        };
        let j = match j_opt {
            None => {
                return None;
            },
            Some(j) => j,
        };
        proof {
            lemma_find_dol_props((*old(self).children@[k as int]->Directory_0).children@, 0);
        }
        let child = vstd::std_specs::vec::vec_index_mut(&mut self.children, k);
        match child {
            Node::Directory(b) => {
                let d: &mut Directory = &mut **b;
                let inner = vstd::std_specs::vec::vec_index_mut(&mut d.children, j);
                match inner {
                    Node::File(f) => Some(f),
                    Node::Directory(_) => vstd::pervasive::unreached(),
                }
            },
            Node::File(_) => vstd::pervasive::unreached(),
        }
    }
}

/// How create-on-write reshapes a directory's children for one path: the
/// named file (created empty when absent) becomes `newf`, missing folders
/// are appended, and every other child stands untouched.
pub open spec fn spec_placed(
    oldc: Seq<Node>,
    newc: Seq<Node>,
    path: Seq<char>,
    newf: File,
) -> bool
    decreases path.len(),
    via spec_placed_dec
{
    let cut = spec_first_slash(path, 0);
    if cut == path.len() {
        match spec_find_file(oldc, path, 0) {
            Some(k) => newc == oldc.update(k, Node::File(newf)),
            None => newc == oldc.push(Node::File(newf)),
        }
    } else {
        let head = path.subrange(0, cut);
        let rest = path.subrange(cut + 1, path.len() as int);
        match spec_find_dir(oldc, head, 0) {
            Some(k) => {
                &&& newc.len() == oldc.len()
                &&& forall|m: int| 0 <= m < oldc.len() && m != k ==> newc[m] == oldc[m]
                &&& (newc[k] matches Node::Directory(nb) && (oldc[k] matches Node::Directory(ob)
                    && nb.name == ob.name && spec_placed(ob.children@, nb.children@, rest, newf)))
            },
            None => {
                &&& newc.len() == oldc.len() + 1
                &&& forall|m: int| 0 <= m < oldc.len() ==> newc[m] == oldc[m]
                &&& (newc[oldc.len() as int] matches Node::Directory(nb) && nb.name@ == head
                    && spec_placed(Seq::empty(), nb.children@, rest, newf))
            },
        }
    }
}

#[via_fn]
proof fn spec_placed_dec(oldc: Seq<Node>, newc: Seq<Node>, path: Seq<char>, newf: File) {
    lemma_first_slash_bounds(path, 0);
}

impl Directory {
    /// The file the slash-separated path names, creating the file and any
    /// missing folders along the way: the caller's writes land on that
    /// file, and the rest of the tree stands untouched.
    pub fn resolve_and_create_path(&mut self, path: &str) -> (r: &mut File)
        ensures
            final(self).name == old(self).name,
            spec_placed(old(self).children@, final(self).children@, path@, *final(r)),
            r.name@ == spec_last_segment(path@),
            spec_resolve_file(*old(self), path@) matches Some(f) ==> *r == f,
            spec_resolve_file(*old(self), path@) is None ==> r.data@ == Seq::<u8>::empty(),
        decreases path@.len(),
    {
        let v = str_to_chars(path);
        let n = v.len();
        let mut cut: usize = 0;
        while cut < n && v[cut] != '/'
            invariant
                cut <= n,
                n == v@.len(),
                v@ == path@,
                forall|k: int| 0 <= k < cut ==> v@[k] != '/',
            decreases n - cut,
        {
            cut += 1;
        }
        proof {
            lemma_first_slash_scan(v@, cut as int);
        }
        if cut == n {
            proof {
                lemma_find_file_props(self.children@, path@, 0);
            }
            match find_file_index(&self.children, path) {
                Some(k) => {
                    let child = vstd::std_specs::vec::vec_index_mut(&mut self.children, k);
                    match child {
                        Node::File(f) => f,
                        Node::Directory(_) => vstd::pervasive::unreached(),
                    }
                },
                None => {
                    let ghost before = self.children@;
                    let nf = File { name: path.to_owned(), data: Vec::new() };
                    let ghost nfv = nf;
                    self.children.push(Node::File(nf));
                    proof {
                        assert(self.children@ == before.push(Node::File(nfv)));
                        assert(nfv.name@ == path@);
                        lemma_find_file_push_from(before, path@, 0);
                        assert(spec_find_file(before.push(Node::File(nfv)), path@, 0) == Some(
                            before.len() as int,
                        ));
                    }
                    let k = self.children.len() - 1;
                    let child = vstd::std_specs::vec::vec_index_mut(&mut self.children, k);
                    match child {
                        Node::File(f) => {
                            proof {
                                assert(before.push(Node::File(nfv)).update(
                                    before.len() as int,
                                    Node::File(*final(f)),
                                ) =~= before.push(Node::File(*final(f))));
                            }
                            f
                        },
                        Node::Directory(_) => vstd::pervasive::unreached(),
                    }
                },
            }
        } else {
            let head = path.substring_char(0, cut);
            let rest = path.substring_char(cut + 1, n);
            proof {
                assert(head@ =~= path@.subrange(0, cut as int));
                assert(rest@ =~= path@.subrange(cut + 1, n as int));
                lemma_find_dir_props(self.children@, head@, 0);
            }
            let k = match find_dir_index(&self.children, head) {
                Some(k) => k,
                None => {
                    let ghost before = self.children@;
                    let nb = Box::new(Directory { name: head.to_owned(), children: Vec::new() });
                    let ghost nbv = nb;
                    self.children.push(Node::Directory(nb));
                    proof {
                        assert(self.children@ == before.push(Node::Directory(nbv)));
                        assert(nbv.name@ == head@);
                        lemma_find_dir_push_from(before, head@, 0);
                        assert(spec_find_dir(before.push(Node::Directory(nbv)), head@, 0) == Some(
                            before.len() as int,
                        ));
                    }
                    self.children.len() - 1
                },
            };
            proof {
                lemma_find_dir_props(self.children@, head@, 0);
            }
            let child = vstd::std_specs::vec::vec_index_mut(&mut self.children, k);
            match child {
                Node::Directory(b) => {
                    let d: &mut Directory = &mut **b;
                    d.resolve_and_create_path(rest)
                },
                Node::File(_) => vstd::pervasive::unreached(),
            }
        }
    }
}

pub proof fn lemma_find_file_push_from(children: Seq<Node>, name: Seq<char>, i: int)
    requires
        0 <= i <= children.len(),
        spec_find_file(children, name, i) is None,
    ensures
        forall|f: File|
            f.name@ == name ==> spec_find_file(children.push(Node::File(f)), name, i) == Some(
                children.len() as int,
            ),
    decreases children.len() - i,
{
    if i < children.len() {
        lemma_find_file_push_from(children, name, i + 1);
    }
}

pub proof fn lemma_find_dir_push_from(children: Seq<Node>, name: Seq<char>, i: int)
    requires
        0 <= i <= children.len(),
        spec_find_dir(children, name, i) is None,
    ensures
        forall|b: Box<Directory>|
            b.name@ == name ==> spec_find_dir(children.push(Node::Directory(b)), name, i) == Some(
                children.len() as int,
            ),
    decreases children.len() - i,
{
    if i < children.len() {
        lemma_find_dir_push_from(children, name, i + 1);
    }
}

pub proof fn lemma_find_file_props(children: Seq<Node>, name: Seq<char>, i: int)
    ensures
        spec_find_file(children, name, i) matches Some(k) ==> i <= k < children.len() && (
        children[k] matches Node::File(f) && f.name@ == name),
    decreases children.len() - i,
{
    if 0 <= i < children.len() && !(children[i] matches Node::File(f) && f.name@ == name) {
        lemma_find_file_props(children, name, i + 1);
    }
}

pub proof fn lemma_find_dir_props(children: Seq<Node>, name: Seq<char>, i: int)
    ensures
        spec_find_dir(children, name, i) matches Some(k) ==> i <= k < children.len() && (
        children[k] matches Node::Directory(d) && d.name@ == name),
    decreases children.len() - i,
{
    if 0 <= i < children.len() && !(children[i] matches Node::Directory(d) && d.name@ == name) {
        lemma_find_dir_props(children, name, i + 1);
    }
}

pub proof fn lemma_first_slash_scan(s: Seq<char>, i: int)
    requires
        0 <= i <= s.len(),
        forall|k: int| 0 <= k < i ==> s[k] != '/',
        i == s.len() || s[i] == '/',
    ensures
        spec_first_slash(s, 0) == i,
    decreases i,
{
    if i > 0 {
        lemma_first_slash_shift(s, 0, i);
    }
}

pub proof fn lemma_first_slash_shift(s: Seq<char>, j: int, i: int)
    requires
        0 <= j <= i <= s.len(),
        forall|k: int| j <= k < i ==> s[k] != '/',
        i == s.len() || s[i] == '/',
    ensures
        spec_first_slash(s, j) == i,
    decreases i - j,
{
    if j < i {
        lemma_first_slash_shift(s, j + 1, i);
    }
}

} // verus!