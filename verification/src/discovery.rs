//! Finding projects under the watched roots, and the project that a path
//! belongs to.
//!
//! A project is a directory with `.git` in it: a directory in an ordinary
//! repository, a file in a submodule or a working tree. The search goes on
//! inside a project: submodules are projects with commits of their own.
//!
//! Paths are text, in which `/` separates components.

use crate::order;
use crate::text;
use vstd::prelude::*;

verus! {

/// Directories for build products and dependencies: they are not searched for
/// projects, and changes in them are of no interest.
pub const DEFAULT_EXCLUDES: [&'static str; 12] = [
    "target",
    "node_modules",
    "build",
    "dist",
    ".build",
    ".gradle",
    ".venv",
    "venv",
    "__pycache__",
    ".next",
    "DerivedData",
    "Pods",
];

/// The names of the directories that are always left out.
pub open spec fn default_names() -> Seq<Seq<char>> {
    seq![
        "target"@,
        "node_modules"@,
        "build"@,
        "dist"@,
        ".build"@,
        ".gradle"@,
        ".venv"@,
        "venv"@,
        "__pycache__"@,
        ".next"@,
        "DerivedData"@,
        "Pods"@,
    ]
}

fn defaults() -> (r: Vec<String>)
    ensures
        text::texts(r@) == default_names(),
{
    let mut r: Vec<String> = Vec::new();
    let mut i: usize = 0;
    while i < 12
        invariant
            i <= 12,
            text::texts(r@) == default_names().take(i as int),
        decreases 12 - i,
    {
        let ghost done = text::texts(r@);
        r.push(DEFAULT_EXCLUDES[i].to_owned());
        assert(text::texts(r@) =~= done.push(DEFAULT_EXCLUDES[i as int]@));
        assert(default_names().take(i + 1) =~= default_names().take(i as int).push(default_names()[i as int]));
        i += 1;
    }
    assert(default_names().take(12) =~= default_names());
    r
}

// --- paths ---------------------------------------------------------------

/// A component of a path.
#[derive(Debug, Clone, PartialEq, Eq)]
pub enum Part {
    Root,
    Current,
    Parent,
    Normal(String),
}

/// What a component holds.
pub enum PartModel {
    Root,
    Current,
    Parent,
    Normal(Seq<char>),
}

impl View for Part {
    type V = PartModel;

    open spec fn view(&self) -> PartModel {
        match self {
            Part::Root => PartModel::Root,
            Part::Current => PartModel::Current,
            Part::Parent => PartModel::Parent,
            Part::Normal(name) => PartModel::Normal(name@),
        }
    }
}

/// Pieces between separators that count: not empty ones, nor single dots.
pub open spec fn counts() -> spec_fn(Seq<char>) -> bool {
    |piece: Seq<char>| piece.len() > 0 && piece != "."@
}

/// The component that a piece is.
pub open spec fn part_of() -> spec_fn(Seq<char>) -> PartModel {
    |piece: Seq<char>|
        if piece == ".."@ {
            PartModel::Parent
        } else {
            PartModel::Normal(piece)
        }
}

/// The components of a path. A dot counts only at the very front.
pub open spec fn components(path: Seq<char>) -> Seq<PartModel> {
    let pieces = text::split_all(path, '/');
    let front = if path.len() > 0 && path[0] == '/' {
        seq![PartModel::Root]
    } else if pieces.len() > 0 && pieces[0] == "."@ {
        seq![PartModel::Current]
    } else {
        seq![]
    };
    front + pieces.filter(counts()).map_values(part_of())
}

/// Whether two paths have the same components.
pub open spec fn same_path(a: Seq<char>, b: Seq<char>) -> bool {
    components(a) == components(b)
}

/// Whether a path is `root` or lies under it.
pub open spec fn lies_under(path: Seq<char>, root: Seq<char>) -> bool {
    components(root).is_prefix_of(components(path))
}

/// The rank of a kind of component.
pub open spec fn rank(p: PartModel) -> int {
    match p {
        PartModel::Root => 0,
        PartModel::Current => 1,
        PartModel::Parent => 2,
        PartModel::Normal(_) => 3,
    }
}

/// Whether a component stands before another.
pub open spec fn part_before(a: PartModel, b: PartModel) -> bool {
    match (a, b) {
        (PartModel::Normal(x), PartModel::Normal(y)) => text::precedes(x, y),
        _ => rank(a) < rank(b),
    }
}

/// Whether components stand before others: by the first that differs, the
/// shorter first.
pub open spec fn parts_before(a: Seq<PartModel>, b: Seq<PartModel>) -> bool
    decreases a.len(),
{
    if b.len() == 0 {
        false
    } else if a.len() == 0 {
        true
    } else if a[0] == b[0] {
        parts_before(a.skip(1), b.skip(1))
    } else {
        part_before(a[0], b[0])
    }
}

/// The components of a path.
pub fn parts(path: &str) -> (r: Vec<Part>)
    ensures
        order::views(r@) == components(path@),
{
    let chars = text::chars_of(path);
    let pieces = text::split(chars.as_slice(), '/');
    let ghost all = text::split_all(path@, '/');
    let mut r: Vec<Part> = Vec::new();
    assert(text::pieces(pieces@) == all);
    assert(all.len() == pieces@.len());
    if chars.len() > 0 && chars[0] == '/' {
        r.push(Part::Root);
    } else if pieces.len() > 0 {
        let first = text::string_of(pieces[0]);
        assert(first@ == all[0]);
        if text::same(first.as_str(), ".") {
            r.push(Part::Current);
        }
    }
    let ghost front = order::views(r@);
    proof {
        assert(front =~= (if path@.len() > 0 && path@[0] == '/' {
            seq![PartModel::Root]
        } else if all.len() > 0 && all[0] == "."@ {
            seq![PartModel::Current]
        } else {
            seq![]
        }));
        order::lemma_filter_none(all, counts());
        assert(order::views(r@) =~= front + all.take(0).filter(counts()).map_values(part_of()));
    }
    let mut i: usize = 0;
    while i < pieces.len()
        invariant
            i <= pieces.len(),
            text::pieces(pieces@) == all,
            all.len() == pieces@.len(),
            order::views(r@) == front + all.take(i as int).filter(counts()).map_values(part_of()),
        decreases pieces.len() - i,
    {
        let piece = text::string_of(pieces[i]);
        assert(piece@ == all[i as int]);
        let ghost done = order::views(r@);
        let ghost kept = all.take(i as int).filter(counts());
        proof {
            order::lemma_filter_step(all, i as int, counts());
        }
        if pieces[i].len() > 0 && !text::same(piece.as_str(), ".") {
            let part = if text::same(piece.as_str(), "..") {
                Part::Parent
            } else {
                Part::Normal(piece)
            };
            r.push(part);
            assert(part@ == (part_of())(all[i as int]));
            assert(order::views(r@) =~= done.push(part@));
            assert(kept.push(all[i as int]).map_values(part_of()) =~= kept.map_values(
                part_of(),
            ).push(part@));
            assert(order::views(r@) =~= front + all.take(i + 1).filter(counts()).map_values(
                part_of(),
            ));
        }
        i += 1;
    }
    assert(all.take(i as int) =~= all);
    r
}

fn same_part(a: &Part, b: &Part) -> (r: bool)
    ensures
        r == (a@ == b@),
{
    match (a, b) {
        (Part::Root, Part::Root) => true,
        (Part::Current, Part::Current) => true,
        (Part::Parent, Part::Parent) => true,
        (Part::Normal(x), Part::Normal(y)) => text::same(x.as_str(), y.as_str()),
        _ => false,
    }
}

fn rank_of(p: &Part) -> (r: u8)
    ensures
        r == rank(p@),
{
    match p {
        Part::Root => 0,
        Part::Current => 1,
        Part::Parent => 2,
        Part::Normal(_) => 3,
    }
}

fn is_part_before(a: &Part, b: &Part) -> (r: bool)
    ensures
        r == part_before(a@, b@),
{
    match (a, b) {
        (Part::Normal(x), Part::Normal(y)) => text::before(x.as_str(), y.as_str()),
        _ => rank_of(a) < rank_of(b),
    }
}

/// Whether the components of `a` begin those of `b`.
fn begins(a: &Vec<Part>, b: &Vec<Part>) -> (r: bool)
    ensures
        r == order::views(a@).is_prefix_of(order::views(b@)),
{
    if a.len() > b.len() {
        return false;
    }
    let mut i: usize = 0;
    while i < a.len()
        invariant
            i <= a.len() <= b.len(),
            forall|j: int| 0 <= j < i ==> order::views(a@)[j] == order::views(b@)[j],
        decreases a.len() - i,
    {
        assert(order::views(a@)[i as int] == a@[i as int]@);
        assert(order::views(b@)[i as int] == b@[i as int]@);
        if !same_part(&a[i], &b[i]) {
            assert(order::views(b@).subrange(0, a@.len() as int)[i as int] == b@[i as int]@);
            return false;
        }
        i += 1;
    }
    assert(order::views(a@) =~= order::views(b@).subrange(0, a@.len() as int));
    true
}

/// Whether two paths have the same components.
pub fn is_same_path(a: &str, b: &str) -> (r: bool)
    ensures
        r == same_path(a@, b@),
{
    let x = parts(a);
    let y = parts(b);
    assert(order::views(x@).len() == x@.len() && order::views(y@).len() == y@.len());
    if x.len() == y.len() && begins(&x, &y) {
        assert(order::views(y@).subrange(0, y@.len() as int) =~= order::views(y@));
        true
    } else {
        assert(order::views(x@) == order::views(y@) ==> order::views(y@).subrange(
            0,
            y@.len() as int,
        ) =~= order::views(y@));
        false
    }
}

/// Whether components stand before others.
fn are_before(a: &Vec<Part>, b: &Vec<Part>) -> (r: bool)
    ensures
        r == parts_before(order::views(a@), order::views(b@)),
{
    let ghost x = order::views(a@);
    let ghost y = order::views(b@);
    let mut i: usize = 0;
    assert(x.skip(0) =~= x && y.skip(0) =~= y);
    while i < a.len() && i < b.len()
        invariant
            i <= a.len(),
            i <= b.len(),
            x == order::views(a@),
            y == order::views(b@),
            parts_before(x, y) == parts_before(x.skip(i as int), y.skip(i as int)),
        decreases a.len() - i,
    {
        assert(x.skip(i as int)[0] == a@[i as int]@ && y.skip(i as int)[0] == b@[i as int]@);
        if !same_part(&a[i], &b[i]) {
            return is_part_before(&a[i], &b[i]);
        }
        assert(x.skip(i as int).skip(1) =~= x.skip(i + 1));
        assert(y.skip(i as int).skip(1) =~= y.skip(i + 1));
        i += 1;
    }
    i < b.len()
}

/// The path of an entry of a directory.
pub open spec fn entry_path(dir: Seq<char>, name: Seq<char>) -> Seq<char> {
    if dir.len() == 0 || dir.last() == '/' {
        dir + name
    } else {
        dir + "/"@ + name
    }
}

fn join_path(dir: &str, name: &str) -> (r: String)
    ensures
        r@ == entry_path(dir@, name@),
{
    let chars = text::chars_of(dir);
    if chars.len() == 0 || chars[chars.len() - 1] == '/' {
        text::concat2(dir, name)
    } else {
        text::concat3(dir, "/", name)
    }
}

/// The name of a directory: its last component, or the whole path where that
/// is no name.
pub open spec fn last_name(path: Seq<char>) -> Seq<char> {
    let all = components(path);
    match all.last() {
        PartModel::Normal(name) if all.len() > 0 => name,
        _ => path,
    }
}

/// The name of a directory: its last component, or the whole path where that
/// is no name.
pub fn base_name(path: &str) -> (r: String)
    ensures
        r@ == last_name(path@),
{
    let all = parts(path);
    assert(order::views(all@).len() == all@.len());
    if all.len() > 0 {
        match &all[all.len() - 1] {
            Part::Normal(name) => {
                return name.clone();
            },
            _ => {},
        }
    }
    path.to_owned()
}

// --- owners --------------------------------------------------------------

/// The paths of a list of projects.
pub open spec fn roots_of<T>(projects: Seq<(String, T)>) -> Seq<Seq<char>> {
    projects.map_values(|p: (String, T)| p.0@)
}

/// The index of the project that a path belongs to: the deepest one that it
/// lies under, the last of those that are equally deep.
pub open spec fn owner_index(roots: Seq<Seq<char>>, path: Seq<char>) -> Option<int>
    decreases roots.len(),
{
    if roots.len() == 0 {
        None
    } else {
        let found = owner_index(roots.drop_last(), path);
        if lies_under(path, roots.last()) && (found matches Some(i) ==> components(roots[i]).len()
            <= components(roots.last()).len()) {
            Some(roots.len() - 1)
        } else {
            found
        }
    }
}

/// The project that a path belongs to: the nearest of its ancestors in the
/// list. The deepest wins: a change inside a submodule is one of the
/// submodule, not of the repository around it.
pub fn owner<'a, T>(projects: &'a [(String, T)], path: &str) -> (r: Option<&'a T>)
    ensures
        r == (match owner_index(roots_of(projects@), path@) {
            Some(i) => Some(&projects@[i].1),
            None => None,
        }),
{
    let ghost roots = roots_of(projects@);
    let target = parts(path);
    let mut best: Option<usize> = None;
    let mut depth: usize = 0;
    let mut i: usize = 0;
    while i < projects.len()
        invariant
            i <= projects.len(),
            roots == roots_of(projects@),
            order::views(target@) == components(path@),
            owner_index(roots.take(i as int), path@) == (match best {
                Some(k) => Some(k as int),
                None => None,
            }),
            best matches Some(k) ==> k < i && depth == components(roots[k as int]).len(),
        decreases projects.len() - i,
    {
        let root = parts(projects[i].0.as_str());
        proof {
            assert(roots.take(i + 1).drop_last() =~= roots.take(i as int));
            assert(roots.take(i + 1).last() == projects@[i as int].0@);
            assert(order::views(root@).len() == root@.len());
            assert(best matches Some(k) ==> roots.take(i + 1)[k as int] == roots[k as int]);
        }
        if begins(&root, &target) && (best.is_none() || depth <= root.len()) {
            best = Some(i);
            depth = root.len();
        }
        i += 1;
    }
    assert(roots.take(i as int) =~= roots);
    match best {
        Some(k) => Some(&projects[k].1),
        None => None,
    }
}

/// No project in the list that a path lies under is deeper than its owner, and
/// none behind it is as deep; a path without an owner lies under none.
pub proof fn the_deepest_project_owns_the_path(roots: Seq<Seq<char>>, path: Seq<char>)
    ensures
        owner_index(roots, path) matches Some(i) ==> {
            &&& 0 <= i < roots.len()
            &&& lies_under(path, roots[i])
            &&& forall|j: int|
                0 <= j < roots.len() && lies_under(path, #[trigger] roots[j]) ==> components(
                    roots[j],
                ).len() <= components(roots[i]).len() && (j > i ==> components(roots[j]).len()
                    < components(roots[i]).len())
        },
        owner_index(roots, path) is None ==> forall|j: int|
            0 <= j < roots.len() ==> !lies_under(path, #[trigger] roots[j]),
    decreases roots.len(),
{
    if roots.len() > 0 {
        let rest = roots.drop_last();
        the_deepest_project_owns_the_path(rest, path);
        assert forall|j: int| 0 <= j < rest.len() implies #[trigger] roots[j] == rest[j] by {}
        if owner_index(roots, path) is Some {
            let i = owner_index(roots, path)->Some_0;
            assert forall|j: int|
                0 <= j < roots.len() && lies_under(path, #[trigger] roots[j]) implies components(
                roots[j],
            ).len() <= components(roots[i]).len() && (j > i ==> components(roots[j]).len()
                < components(roots[i]).len()) by {
                if j < rest.len() {
                    assert(rest[j] == roots[j]);
                }
            }
        }
    }
}

// --- the walk ------------------------------------------------------------

/// A project that was found.
#[derive(Debug, Clone, PartialEq, Eq)]
pub struct Found {
    pub path: String,
    pub name: String,
}

/// What a found project holds.
pub struct FoundModel {
    pub path: Seq<char>,
    pub name: Seq<char>,
}

impl View for Found {
    type V = FoundModel;

    open spec fn view(&self) -> FoundModel {
        FoundModel { path: self.path@, name: self.name@ }
    }
}

impl order::Keep for Found {
    fn keep(&self) -> (r: Self) {
        Found { path: self.path.clone(), name: self.name.clone() }
    }
}

/// An entry of a directory. A symbolic link is no directory: a link to a
/// directory further up would make the walk endless.
#[derive(Debug, Clone, PartialEq, Eq)]
pub struct Entry {
    pub name: String,
    pub is_dir: bool,
}

/// What an entry holds.
pub struct EntryModel {
    pub name: Seq<char>,
    pub is_dir: bool,
}

impl View for Entry {
    type V = EntryModel;

    open spec fn view(&self) -> EntryModel {
        EntryModel { name: self.name@, is_dir: self.is_dir }
    }
}

/// The directories on disk: which have `.git` in them, and what they hold.
pub struct Disk {
    pub has_git: spec_fn(Seq<char>) -> bool,
    pub entries: spec_fn(Seq<char>) -> Seq<EntryModel>,
}

/// Whether the two functions tell what is on the disk.
pub open spec fn reads<G: Fn(&str) -> bool, L: Fn(&str) -> Vec<Entry>>(
    has_git: G,
    list: L,
    disk: Disk,
) -> bool {
    &&& forall|dir: &str, r: bool|
        call_ensures(has_git, (dir,), r) ==> r == (disk.has_git)(dir@)
    &&& forall|dir: &str, r: Vec<Entry>|
        call_ensures(list, (dir,), r) ==> order::views(r@) == (disk.entries)(dir@)
}

/// The rules of the search: how deep, and which directories to leave out.
#[derive(Debug, Clone)]
pub struct Walker {
    pub max_depth: usize,
    pub excludes: Vec<String>,
}

/// What the rules of a search hold.
pub struct WalkerModel {
    pub max_depth: nat,
    pub excludes: Seq<Seq<char>>,
}

impl View for Walker {
    type V = WalkerModel;

    open spec fn view(&self) -> WalkerModel {
        WalkerModel { max_depth: self.max_depth as nat, excludes: text::texts(self.excludes@) }
    }
}

/// The name of a project: its path below the root, after the root's name
/// where there are several roots. A root that is a project itself has the
/// root's name.
pub open spec fn name_of(root: Seq<char>, relative: Seq<char>, several: bool) -> Seq<char> {
    if relative.len() == 0 {
        last_name(root)
    } else if several {
        last_name(root) + "/"@ + relative
    } else {
        relative
    }
}

/// The path of an entry below the root.
pub open spec fn below(relative: Seq<char>, name: Seq<char>) -> Seq<char> {
    if relative.len() == 0 {
        name
    } else {
        relative + "/"@ + name
    }
}

impl WalkerModel {
    /// Whether the search goes into an entry.
    pub open spec fn enters(self, e: EntryModel) -> bool {
        e.is_dir && !(e.name.len() > 0 && e.name[0] == '.') && !self.excludes.contains(e.name)
    }

    /// The projects in a directory and below it.
    pub open spec fn walked(
        self,
        disk: Disk,
        root: Seq<char>,
        several: bool,
        dir: Seq<char>,
        relative: Seq<char>,
        depth: nat,
    ) -> Seq<FoundModel>
        decreases self.max_depth - depth, 1nat, 0nat,
    {
        let here = if (disk.has_git)(dir) {
            seq![FoundModel { path: dir, name: name_of(root, relative, several) }]
        } else {
            seq![]
        };
        if depth >= self.max_depth {
            here
        } else {
            here + self.walked_all(
                disk,
                root,
                several,
                dir,
                relative,
                depth,
                (disk.entries)(dir),
            )
        }
    }

    /// The projects below a directory, in the given entries of it.
    pub open spec fn walked_all(
        self,
        disk: Disk,
        root: Seq<char>,
        several: bool,
        dir: Seq<char>,
        relative: Seq<char>,
        depth: nat,
        entries: Seq<EntryModel>,
    ) -> Seq<FoundModel>
        decreases self.max_depth - depth, 0nat, entries.len(),
    {
        if entries.len() == 0 || depth >= self.max_depth {
            seq![]
        } else {
            let e = entries.last();
            let front = self.walked_all(
                disk,
                root,
                several,
                dir,
                relative,
                depth,
                entries.drop_last(),
            );
            if self.enters(e) {
                front + self.walked(
                    disk,
                    root,
                    several,
                    entry_path(dir, e.name),
                    below(relative, e.name),
                    depth + 1,
                )
            } else {
                front
            }
        }
    }

    /// The projects under the roots, root by root.
    pub open spec fn walked_roots(self, disk: Disk, several: bool, roots: Seq<Seq<char>>) -> Seq<
        FoundModel,
    >
        decreases roots.len(),
    {
        if roots.len() == 0 {
            seq![]
        } else {
            self.walked_roots(disk, several, roots.drop_last()) + self.walked(
                disk,
                roots.last(),
                several,
                roots.last(),
                seq![],
                0,
            )
        }
    }

    /// The projects under the roots by their paths, each once.
    pub open spec fn discovered(self, disk: Disk, roots: Seq<Seq<char>>) -> Seq<FoundModel> {
        deduped(order::sorted(self.walked_roots(disk, roots.len() > 1, roots), by_path()))
    }
}

/// By path.
pub open spec fn by_path() -> spec_fn(FoundModel, FoundModel) -> bool {
    |a: FoundModel, b: FoundModel| parts_before(components(a.path), components(b.path))
}

/// The first of every run of projects with the same path.
pub open spec fn deduped(s: Seq<FoundModel>) -> Seq<FoundModel>
    decreases s.len(),
{
    if s.len() == 0 {
        s
    } else {
        let rest = deduped(s.drop_last());
        if rest.len() > 0 && same_path(rest.last().path, s.last().path) {
            rest
        } else {
            rest.push(s.last())
        }
    }
}

/// The name of a project.
pub fn project_name(root: &str, relative: &str, several: bool) -> (r: String)
    ensures
        r@ == name_of(root@, relative@, several),
{
    let chars = text::chars_of(relative);
    if chars.len() == 0 {
        base_name(root)
    } else if several {
        let name = base_name(root);
        text::concat3(name.as_str(), "/", relative)
    } else {
        relative.to_owned()
    }
}

fn join_relative(relative: &str, name: &str) -> (r: String)
    ensures
        r@ == below(relative@, name@),
{
    let chars = text::chars_of(relative);
    if chars.len() == 0 {
        name.to_owned()
    } else {
        text::concat3(relative, "/", name)
    }
}

/// Adds the values at the end.
fn extend(list: &mut Vec<Found>, more: Vec<Found>)
    ensures
        order::views(final(list)@) == order::views(old(list)@) + order::views(more@),
{
    let ghost before = order::views(list@);
    let ghost all = order::views(more@);
    let mut i: usize = 0;
    assert(before =~= before + all.take(0));
    while i < more.len()
        invariant
            i <= more.len(),
            all == order::views(more@),
            before == order::views(old(list)@),
            order::views(list@) == before + all.take(i as int),
        decreases more.len() - i,
    {
        let ghost done = order::views(list@);
        let item = order::Keep::keep(&more[i]);
        list.push(item);
        assert(order::views(list@) =~= done.push(item@));
        assert(all.take(i + 1) =~= all.take(i as int).push(all[i as int]));
        assert(order::views(list@) =~= before + all.take(i + 1));
        i += 1;
    }
    assert(all.take(i as int) =~= all);
}

impl Walker {
    /// Rules with further names to leave out.
    pub fn new(max_depth: usize, extra_excludes: &[String]) -> (r: Walker)
        ensures
            r.max_depth == max_depth,
            r@.excludes == order::distinct(default_names() + text::texts(extra_excludes@)),
            forall|name: Seq<char>| #[trigger]
                r@.excludes.contains(name) <==> default_names().contains(name) || text::texts(
                    extra_excludes@,
                ).contains(name),
    {
        let names = defaults();
        let ghost all = default_names() + text::texts(extra_excludes@);
        let mut excludes: Vec<String> = Vec::new();
        let mut i: usize = 0;
        assert(text::texts(names@).len() == names@.len());
        assert(text::texts(excludes@) =~= order::distinct(all.take(0)));
        while i < names.len()
            invariant
                i <= names.len(),
                text::texts(names@) == default_names(),
                text::texts(names@).len() == names@.len(),
                all == default_names() + text::texts(extra_excludes@),
                text::texts(excludes@) == order::distinct(all.take(i as int)),
            decreases names.len() - i,
        {
            let ghost done = text::texts(excludes@);
            assert(all.take(i + 1).drop_last() =~= all.take(i as int));
            assert(all.take(i + 1).last() == text::texts(names@)[i as int]);
            if !text::has(&excludes, names[i].as_str()) {
                excludes.push(names[i].clone());
                assert(text::texts(excludes@) =~= done.push(names@[i as int]@));
            }
            i += 1;
        }
        let mut k: usize = 0;
        while k < extra_excludes.len()
            invariant
                k <= extra_excludes.len(),
                default_names().len() == 12,
                all == default_names() + text::texts(extra_excludes@),
                text::texts(excludes@) == order::distinct(all.take(12 + k)),
            decreases extra_excludes.len() - k,
        {
            let ghost done = text::texts(excludes@);
            assert(all.take(12 + k + 1).drop_last() =~= all.take(12 + k));
            assert(all.take(12 + k + 1).last() == text::texts(extra_excludes@)[k as int]);
            if !text::has(&excludes, extra_excludes[k].as_str()) {
                excludes.push(extra_excludes[k].clone());
                assert(text::texts(excludes@) =~= done.push(extra_excludes@[k as int]@));
            }
            k += 1;
        }
        assert(all.take(12 + k) =~= all);
        proof {
            let given = text::texts(extra_excludes@);
            order::lemma_distinct(all);
            assert forall|name: Seq<char>| all.contains(name) <==> default_names().contains(name)
                || given.contains(name) by {
                if default_names().contains(name) {
                    let i = choose|i: int|
                        0 <= i < default_names().len() && default_names()[i] == name;
                    assert(all[i] == name);
                }
                if given.contains(name) {
                    let i = choose|i: int| 0 <= i < given.len() && given[i] == name;
                    assert(all[12 + i] == name);
                }
                if all.contains(name) {
                    let i = choose|i: int| 0 <= i < all.len() && all[i] == name;
                    if i < 12 {
                        assert(default_names()[i] == name);
                    } else {
                        assert(given[i - 12] == name);
                    }
                }
            }
        }
        Walker { max_depth, excludes }
    }

    /// Whether the search goes into an entry.
    fn enters(&self, entry: &Entry) -> (r: bool)
        ensures
            r == self@.enters(entry@),
    {
        let chars = text::chars_of(entry.name.as_str());
        entry.is_dir && !(chars.len() > 0 && chars[0] == '.') && !text::has(
            &self.excludes,
            entry.name.as_str(),
        )
    }

    /// The projects in a directory and below it.
    fn walk<G: Fn(&str) -> bool, L: Fn(&str) -> Vec<Entry>>(
        &self,
        has_git: &G,
        list: &L,
        root: &str,
        several: bool,
        dir: &str,
        relative: &str,
        depth: usize,
    ) -> (r: Vec<Found>)
        requires
            depth <= self.max_depth,
            forall|dir: &str| call_requires(has_git, (dir,)),
            forall|dir: &str| call_requires(list, (dir,)),
        ensures
            forall|disk: Disk| #[trigger]
                reads(*has_git, *list, disk) ==> order::views(r@) == self@.walked(
                    disk,
                    root@,
                    several,
                    dir@,
                    relative@,
                    depth as nat,
                ),
        decreases self.max_depth - depth,
    {
        let mut found: Vec<Found> = Vec::new();
        if has_git(dir) {
            found.push(
                Found {
                    path: dir.to_owned(),
                    name: project_name(root, relative, several),
                },
            );
        }
        let ghost here = order::views(found@);
        assert forall|disk: Disk| #[trigger] reads(*has_git, *list, disk) implies here == (if (
        disk.has_git)(dir@) {
            seq![FoundModel { path: dir@, name: name_of(root@, relative@, several) }]
        } else {
            seq![]
        }) by {
            if (disk.has_git)(dir@) {
                assert(here =~= seq![
                    FoundModel { path: dir@, name: name_of(root@, relative@, several) },
                ]);
            } else {
                assert(here =~= seq![]);
            }
        }
        if depth >= self.max_depth {
            return found;
        }
        let entries = list(dir);
        let ghost all = order::views(entries@);
        assert(forall|disk: Disk| #[trigger]
            reads(*has_git, *list, disk) ==> all == (disk.entries)(dir@));
        let mut i: usize = 0;
        assert(here + seq![] =~= here);
        while i < entries.len()
            invariant
                i <= entries.len(),
                depth < self.max_depth,
                all == order::views(entries@),
                forall|dir: &str| call_requires(has_git, (dir,)),
                forall|dir: &str| call_requires(list, (dir,)),
                forall|disk: Disk| #[trigger]
                    reads(*has_git, *list, disk) ==> order::views(found@) == here
                        + self@.walked_all(
                        disk,
                        root@,
                        several,
                        dir@,
                        relative@,
                        depth as nat,
                        all.take(i as int),
                    ),
            decreases entries.len() - i,
        {
            let ghost done = order::views(found@);
            assert(all.take(i + 1).drop_last() =~= all.take(i as int));
            assert(all.take(i + 1).last() == entries@[i as int]@);
            if self.enters(&entries[i]) {
                let path = join_path(dir, entries[i].name.as_str());
                let further = join_relative(relative, entries[i].name.as_str());
                let more = self.walk(
                    has_git,
                    list,
                    root,
                    several,
                    path.as_str(),
                    further.as_str(),
                    depth + 1,
                );
                extend(&mut found, more);
                assert forall|disk: Disk| #[trigger]
                    reads(*has_git, *list, disk) implies order::views(found@) == here
                    + self@.walked_all(
                    disk,
                    root@,
                    several,
                    dir@,
                    relative@,
                    depth as nat,
                    all.take(i + 1),
                ) by {
                    assert(order::views(found@) =~= here + self@.walked_all(
                        disk,
                        root@,
                        several,
                        dir@,
                        relative@,
                        depth as nat,
                        all.take(i + 1),
                    ));
                }
            }
            i += 1;
        }
        assert(all.take(i as int) =~= all);
        found
    }

    /// The projects under all roots. A name is the path below the root; where
    /// there are several roots, after the root's name, so that equal
    /// directories of different roots have different names. The two functions
    /// tell whether a directory has `.git` in it, and what it holds.
    pub fn discover<G: Fn(&str) -> bool, L: Fn(&str) -> Vec<Entry>>(
        &self,
        roots: &[String],
        has_git: G,
        list: L,
    ) -> (r: Vec<Found>)
        requires
            forall|dir: &str| call_requires(has_git, (dir,)),
            forall|dir: &str| call_requires(list, (dir,)),
        ensures
            forall|disk: Disk| #[trigger]
                reads(has_git, list, disk) ==> order::views(r@) == self@.discovered(
                    disk,
                    text::texts(roots@),
                ),
    {
        let several = roots.len() > 1;
        let ghost all = text::texts(roots@);
        let mut found: Vec<Found> = Vec::new();
        let mut i: usize = 0;
        assert(order::views(found@) =~= seq![]);
        while i < roots.len()
            invariant
                i <= roots.len(),
                several == (roots.len() > 1),
                all == text::texts(roots@),
                forall|dir: &str| call_requires(has_git, (dir,)),
                forall|dir: &str| call_requires(list, (dir,)),
                forall|disk: Disk| #[trigger]
                    reads(has_git, list, disk) ==> order::views(found@) == self@.walked_roots(
                        disk,
                        several,
                        all.take(i as int),
                    ),
            decreases roots.len() - i,
        {
            assert(all.take(i + 1).drop_last() =~= all.take(i as int));
            assert(all.take(i + 1).last() == roots@[i as int]@);
            let root = roots[i].as_str();
            let more = self.walk(&has_git, &list, root, several, root, "", 0);
            proof {
                reveal_strlit("");
                assert(""@ =~= seq![]);
            }
            extend(&mut found, more);
            i += 1;
        }
        assert(all.take(i as int) =~= all);
        let before = |a: &Found, b: &Found| -> (r: bool)
            ensures r == parts_before(components(a.path@), components(b.path@))
        {
            let x = parts(a.path.as_str());
            let y = parts(b.path.as_str());
            are_before(&x, &y)
        };
        let sorted = order::sort(found, before, Ghost(by_path()));
        dedup(&sorted)
    }

    /// Whether a change at the path is of interest: it does not lie in a
    /// directory that is left out. `.git` is not left out, for new commits show
    /// there.
    pub fn is_relevant(&self, path: &str) -> (r: bool)
        ensures
            r == is_relevant(self@, path@),
    {
        let all = parts(path);
        let mut i: usize = 0;
        while i < all.len()
            invariant
                i <= all.len(),
                order::views(all@) == components(path@),
                forall|j: int|
                    0 <= j < i ==> !is_left_out(self@, #[trigger] components(path@)[j]),
            decreases all.len() - i,
        {
            assert(components(path@)[i as int] == all@[i as int]@);
            match &all[i] {
                Part::Normal(name) => {
                    if text::has(&self.excludes, name.as_str()) {
                        assert(is_left_out(self@, components(path@)[i as int]));
                        return false;
                    }
                },
                _ => {},
            }
            i += 1;
        }
        true
    }
}

/// Whether a component is the name of a directory that is left out.
pub open spec fn is_left_out(walker: WalkerModel, part: PartModel) -> bool {
    part matches PartModel::Normal(name) && walker.excludes.contains(name)
}

/// Whether no component of the path is left out.
pub open spec fn is_relevant(walker: WalkerModel, path: Seq<char>) -> bool {
    forall|i: int|
        0 <= i < components(path).len() ==> !is_left_out(walker, #[trigger] components(path)[i])
}

/// The first of every run of projects with the same path.
fn dedup(list: &Vec<Found>) -> (r: Vec<Found>)
    ensures
        order::views(r@) == deduped(order::views(list@)),
{
    let ghost all = order::views(list@);
    let mut r: Vec<Found> = Vec::new();
    let mut i: usize = 0;
    assert(order::views(r@) =~= deduped(all.take(0)));
    while i < list.len()
        invariant
            i <= list.len(),
            all == order::views(list@),
            order::views(r@) == deduped(all.take(i as int)),
        decreases list.len() - i,
    {
        let ghost done = order::views(r@);
        assert(done.len() == r@.len());
        assert(all.take(i + 1).drop_last() =~= all.take(i as int));
        assert(all.take(i + 1).last() == list@[i as int]@);
        if r.len() > 0 && is_same_path(r[r.len() - 1].path.as_str(), list[i].path.as_str()) {
        } else {
            let item = order::Keep::keep(&list[i]);
            r.push(item);
            assert(order::views(r@) =~= done.push(item@));
        }
        i += 1;
    }
    assert(all.take(i as int) =~= all);
    r
}

// --- laws ----------------------------------------------------------------

proof fn lemma_parts_total(a: Seq<PartModel>, b: Seq<PartModel>)
    ensures
        !(parts_before(a, b) && parts_before(b, a)),
        a != b ==> parts_before(a, b) || parts_before(b, a),
        a == b ==> !parts_before(a, b),
    decreases a.len(),
{
    if a.len() > 0 && b.len() > 0 {
        if a[0] == b[0] {
            lemma_parts_total(a.skip(1), b.skip(1));
            if a.skip(1) == b.skip(1) {
                assert(a =~= seq![a[0]] + a.skip(1));
                assert(b =~= seq![b[0]] + b.skip(1));
            }
        } else {
            match (a[0], b[0]) {
                (PartModel::Normal(x), PartModel::Normal(y)) => {
                    text::lemma_precedes_total(x, y);
                },
                _ => {},
            }
        }
    } else if a.len() == 0 && b.len() == 0 {
        assert(a =~= b);
    }
}

proof fn lemma_parts_transitive(a: Seq<PartModel>, b: Seq<PartModel>, c: Seq<PartModel>)
    requires
        parts_before(a, b),
        parts_before(b, c),
    ensures
        parts_before(a, c),
    decreases a.len(),
{
    if a.len() > 0 {
        if a[0] == b[0] && b[0] == c[0] {
            lemma_parts_transitive(a.skip(1), b.skip(1), c.skip(1));
        } else {
            match (a[0], b[0], c[0]) {
                (PartModel::Normal(x), PartModel::Normal(y), PartModel::Normal(z)) => {
                    if x != y && y != z {
                        text::lemma_precedes_transitive(x, y, z);
                        text::lemma_precedes_total(x, z);
                    }
                },
                _ => {},
            }
        }
    }
}

/// `by_path` is an order.
proof fn lemma_by_path()
    ensures
        order::is_order(by_path()),
{
    let before = by_path();
    assert forall|a: FoundModel, b: FoundModel| #[trigger] before(a, b) implies !before(b, a) by {
        lemma_parts_total(components(a.path), components(b.path));
    }
    assert forall|a: FoundModel, b: FoundModel, c: FoundModel|
        #![trigger before(b, a), before(c, b)]
        !before(b, a) && !before(c, b) implies !before(c, a) by {
        let x = components(a.path);
        let y = components(b.path);
        let z = components(c.path);
        if before(c, a) {
            lemma_parts_total(x, y);
            lemma_parts_total(y, z);
            lemma_parts_total(x, z);
            if x != y {
                lemma_parts_transitive(z, x, y);
            }
        }
    }
}

proof fn lemma_deduped(s: Seq<FoundModel>)
    requires
        order::in_order(s, by_path()),
    ensures
        forall|i: int, j: int|
            0 <= i < j < deduped(s).len() ==> (by_path())(
                #[trigger] deduped(s)[i],
                #[trigger] deduped(s)[j],
            ),
        s.len() > 0 ==> deduped(s).len() > 0 && same_path(deduped(s).last().path, s.last().path),
        forall|f: FoundModel| #[trigger] deduped(s).contains(f) ==> s.contains(f),
        forall|f: FoundModel| #[trigger]
            s.contains(f) ==> exists|g: FoundModel| #[trigger]
                deduped(s).contains(g) && same_path(g.path, f.path),
    decreases s.len(),
{
    if s.len() > 0 {
        let t = s.drop_last();
        let x = s.last();
        let rest = deduped(t);
        let r = deduped(s);
        assert forall|i: int, j: int| 0 <= i < j < t.len() implies !(by_path())(
            #[trigger] t[j],
            #[trigger] t[i],
        ) by {
            assert(t[i] == s[i] && t[j] == s[j]);
        }
        lemma_deduped(t);
        if t.len() > 0 {
            assert(s[s.len() - 1] == x && s[s.len() - 2] == t.last());
            assert(!(by_path())(s[s.len() - 1], s[s.len() - 2]));
            lemma_parts_total(components(rest.last().path), components(x.path));
        }
        assert forall|i: int, j: int| 0 <= i < j < r.len() implies (by_path())(
            #[trigger] r[i],
            #[trigger] r[j],
        ) by {
            if j < rest.len() {
                assert(r[i] == rest[i] && r[j] == rest[j]);
            } else {
                assert(r[i] == rest[i]);
                if i < rest.len() - 1 {
                    assert((by_path())(rest[i], rest[rest.len() - 1]));
                    lemma_parts_transitive(
                        components(rest[i].path),
                        components(rest.last().path),
                        components(x.path),
                    );
                }
            }
        }
        assert(s =~= t.push(x));
        assert forall|f: FoundModel| #[trigger] r.contains(f) implies s.contains(f) by {
            let k = choose|k: int| 0 <= k < r.len() && r[k] == f;
            if k < rest.len() {
                assert(rest[k] == f);
                assert(rest.contains(f));
                let m = choose|m: int| 0 <= m < t.len() && t[m] == f;
                assert(s[m] == f);
            } else {
                assert(s[s.len() - 1] == f);
            }
        }
        assert forall|f: FoundModel| #[trigger] s.contains(f) implies exists|g: FoundModel|
            #[trigger] r.contains(g) && same_path(g.path, f.path) by {
            let k = choose|k: int| 0 <= k < s.len() && s[k] == f;
            if k < t.len() {
                assert(t[k] == f);
                assert(t.contains(f));
                let g = choose|g: FoundModel| #[trigger]
                    rest.contains(g) && same_path(g.path, f.path);
                let m = choose|m: int| 0 <= m < rest.len() && rest[m] == g;
                assert(r[m] == g);
                assert(r.contains(g));
            } else {
                assert(r[r.len() - 1] == r.last());
                assert(r.contains(r.last()));
            }
        }
    }
}

/// The projects that are found stand in the order of their paths, no path
/// twice; every directory that the walk takes for a project is among them by
/// its path, and nothing else is.
pub proof fn every_project_is_found_once(walker: WalkerModel, disk: Disk, roots: Seq<Seq<char>>)
    ensures
        ({
            let found = walker.discovered(disk, roots);
            let walked = walker.walked_roots(disk, roots.len() > 1, roots);
            &&& forall|i: int, j: int|
                0 <= i < j < found.len() ==> (by_path())(#[trigger] found[i], #[trigger] found[j])
            &&& forall|f: FoundModel| #[trigger] found.contains(f) ==> walked.contains(f)
            &&& forall|f: FoundModel| #[trigger]
                walked.contains(f) ==> exists|g: FoundModel| #[trigger]
                    found.contains(g) && same_path(g.path, f.path)
        }),
{
    let walked = walker.walked_roots(disk, roots.len() > 1, roots);
    lemma_by_path();
    order::sorted_is_permutation(walked, by_path());
    order::sorted_is_in_order(walked, by_path());
    lemma_deduped(order::sorted(walked, by_path()));
    let s = order::sorted(walked, by_path());
    assert forall|f: FoundModel| #[trigger]
        walker.discovered(disk, roots).contains(f) implies walked.contains(f) by {
        assert(s.contains(f));
    }
    assert forall|f: FoundModel| #[trigger] walked.contains(f) implies exists|g: FoundModel|
        #[trigger] walker.discovered(disk, roots).contains(g) && same_path(g.path, f.path) by {
        assert(s.contains(f));
        let g = choose|g: FoundModel| #[trigger]
            deduped(s).contains(g) && same_path(g.path, f.path);
        assert(walker.discovered(disk, roots).contains(g));
    }
}

/// A directory that the walk takes for a project is found by its path.
pub proof fn a_walked_project_is_found(
    walker: WalkerModel,
    disk: Disk,
    roots: Seq<Seq<char>>,
    several: bool,
    f: FoundModel,
)
    requires
        several == (roots.len() > 1),
        walker.walked_roots(disk, several, roots).contains(f),
    ensures
        exists|g: FoundModel| #[trigger]
            walker.discovered(disk, roots).contains(g) && same_path(g.path, f.path),
{
    let walked = walker.walked_roots(disk, several, roots);
    let s = order::sorted(walked, by_path());
    lemma_by_path();
    order::sorted_is_permutation(walked, by_path());
    order::sorted_is_in_order(walked, by_path());
    lemma_deduped(s);
    assert(s.contains(f));
    let g = choose|g: FoundModel| #[trigger] deduped(s).contains(g) && same_path(g.path, f.path);
    assert(walker.discovered(disk, roots) == deduped(s));
    assert(walker.discovered(disk, roots).contains(g));
}

/// Every directory that the walk takes for a project has `.git` in it.
pub proof fn found_projects_have_git(
    walker: WalkerModel,
    disk: Disk,
    root: Seq<char>,
    several: bool,
    dir: Seq<char>,
    relative: Seq<char>,
    depth: nat,
    f: FoundModel,
)
    requires
        walker.walked(disk, root, several, dir, relative, depth).contains(f),
    ensures
        (disk.has_git)(f.path),
    decreases walker.max_depth - depth, 1nat, 0nat,
{
    let all = walker.walked(disk, root, several, dir, relative, depth);
    let k = choose|k: int| 0 <= k < all.len() && all[k] == f;
    if depth < walker.max_depth {
        let entries = (disk.entries)(dir);
        let below = walker.walked_all(disk, root, several, dir, relative, depth, entries);
        let here: int = all.len() - below.len();
        if k >= here {
            assert(below[k - here] == f);
            lemma_below_have_git(walker, disk, root, several, dir, relative, depth, entries, f);
        }
    }
}

proof fn lemma_below_have_git(
    walker: WalkerModel,
    disk: Disk,
    root: Seq<char>,
    several: bool,
    dir: Seq<char>,
    relative: Seq<char>,
    depth: nat,
    entries: Seq<EntryModel>,
    f: FoundModel,
)
    requires
        walker.walked_all(disk, root, several, dir, relative, depth, entries).contains(f),
    ensures
        (disk.has_git)(f.path),
    decreases walker.max_depth - depth, 0nat, entries.len(),
{
    let all = walker.walked_all(disk, root, several, dir, relative, depth, entries);
    let k = choose|k: int| 0 <= k < all.len() && all[k] == f;
    if entries.len() > 0 && depth < walker.max_depth {
        let front = walker.walked_all(
            disk,
            root,
            several,
            dir,
            relative,
            depth,
            entries.drop_last(),
        );
        if k < front.len() {
            assert(front[k] == f);
            lemma_below_have_git(
                walker,
                disk,
                root,
                several,
                dir,
                relative,
                depth,
                entries.drop_last(),
                f,
            );
        } else {
            let e = entries.last();
            let last = walker.walked(
                disk,
                root,
                several,
                entry_path(dir, e.name),
                below(relative, e.name),
                depth + 1,
            );
            assert(last[k - front.len()] == f);
            found_projects_have_git(
                walker,
                disk,
                root,
                several,
                entry_path(dir, e.name),
                below(relative, e.name),
                depth + 1,
                f,
            );
        }
    }
}

/// Equal directories of roots with different names have different names.
pub proof fn equal_directories_of_different_roots_differ(
    root: Seq<char>,
    other: Seq<char>,
    relative: Seq<char>,
)
    requires
        last_name(root) != last_name(other),
    ensures
        name_of(root, relative, true) != name_of(other, relative, true),
{
    let a = last_name(root);
    let b = last_name(other);
    let x = a + "/"@ + relative;
    let y = b + "/"@ + relative;
    if relative.len() > 0 && x == y {
        assert(x.len() == a.len() + "/"@.len() + relative.len());
        assert(y.len() == b.len() + "/"@.len() + relative.len());
        assert forall|i: int| 0 <= i < a.len() implies a[i] == b[i] by {
            assert(x[i] == a[i] && y[i] == b[i]);
        }
        assert(a =~= b);
    }
}

/// What was found at a path.
pub open spec fn at_path(path: Seq<char>) -> spec_fn(FoundModel) -> bool {
    |f: FoundModel| same_path(f.path, path)
}

/// Of every run of projects with the same path the first is kept.
proof fn lemma_first_is_kept(s: Seq<FoundModel>, g: FoundModel)
    requires
        order::in_order(s, by_path()),
        deduped(s).contains(g),
    ensures
        s.filter(at_path(g.path)).len() > 0,
        s.filter(at_path(g.path))[0] == g,
    decreases s.len(),
{
    let t = s.drop_last();
    let x = s.last();
    let rest = deduped(t);
    let q = at_path(g.path);
    assert forall|i: int, j: int| 0 <= i < j < t.len() implies !(by_path())(
        #[trigger] t[j],
        #[trigger] t[i],
    ) by {
        assert(t[i] == s[i] && t[j] == s[j]);
    }
    lemma_deduped(t);
    assert(s.filter(q) == (if q(x) {
        t.filter(q).push(x)
    } else {
        t.filter(q)
    })) by {
        reveal(Seq::filter);
    }
    if rest.contains(g) {
        lemma_first_is_kept(t, g);
    } else {
        let k = choose|k: int| 0 <= k < deduped(s).len() && deduped(s)[k] == g;
        if k < rest.len() {
            assert(rest[k] == g);
        }
        assert(g == x);
        assert forall|i: int| 0 <= i < t.len() implies !q(#[trigger] t[i]) by {
            if q(t[i]) {
                assert(t.contains(t[i]));
                let f = choose|f: FoundModel| #[trigger]
                    rest.contains(f) && same_path(f.path, t[i].path);
                let m = choose|m: int| 0 <= m < rest.len() && rest[m] == f;
                assert(components(f.path) == components(x.path));
                if m < rest.len() - 1 {
                    assert((by_path())(rest[m], rest[rest.len() - 1]));
                    assert(components(rest.last().path) == components(t.last().path));
                    assert(s[s.len() - 1] == x && s[s.len() - 2] == t.last());
                    assert(!(by_path())(s[s.len() - 1], s[s.len() - 2]));
                }
            }
        }
        order::lemma_filter_empty(t, q);
    }
}

/// A directory that is reached from several roots has the name that it has
/// below the first of them.
pub proof fn a_project_has_its_first_name(
    walker: WalkerModel,
    disk: Disk,
    roots: Seq<Seq<char>>,
    several: bool,
    g: FoundModel,
)
    requires
        several == (roots.len() > 1),
        walker.discovered(disk, roots).contains(g),
    ensures
        walker.walked_roots(disk, several, roots).filter(at_path(g.path)).len() > 0,
        walker.walked_roots(disk, several, roots).filter(at_path(g.path))[0] == g,
{
    let walked = walker.walked_roots(disk, several, roots);
    let s = order::sorted(walked, by_path());
    let q = at_path(g.path);
    lemma_by_path();
    order::sorted_is_in_order(walked, by_path());
    assert(walker.discovered(disk, roots) == deduped(s));
    lemma_first_is_kept(s, g);
    assert forall|a: FoundModel, b: FoundModel| q(a) && q(b) implies !#[trigger] (by_path())(
        a,
        b,
    ) by {
        lemma_parts_total(components(a.path), components(b.path));
    }
    order::equal_elements_keep_their_order(walked, by_path(), q);
}

} // verus!
