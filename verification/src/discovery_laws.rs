//! What holds of the search for projects, and of the paths in them.

use crate::discovery;
use crate::discovery::{Disk, FoundModel, PartModel, WalkerModel};
use crate::order;
use crate::text;
use crate::text_laws;
use vstd::prelude::*;

verus! {

// --- paths ---------------------------------------------------------------

/// Whether a text is the name of a file or a directory.
pub open spec fn is_name(name: Seq<char>) -> bool {
    name.len() > 0 && text_laws::lacks(name, '/') && name != "."@ && name != ".."@
}

/// The path of what has that name in a directory.
pub open spec fn inside(dir: Seq<char>, name: Seq<char>) -> Seq<char> {
    if dir.len() == 0 || dir.last() == '/' {
        dir + name
    } else {
        dir + seq!['/'] + name
    }
}

/// The path that leads from a root through directories of the given names.
pub open spec fn path_below(root: Seq<char>, names: Seq<Seq<char>>) -> Seq<char>
    decreases names.len(),
{
    if names.len() == 0 {
        root
    } else {
        inside(path_below(root, names.drop_last()), names.last())
    }
}

/// Splitting goes on behind a separator as it would begin there.
proof fn lemma_split_joined(a: Seq<char>, c: char, b: Seq<char>)
    ensures
        text::split_all(a + seq![c] + b, c) == text::split_all(a, c) + text::split_all(b, c),
    decreases a.len(),
{
    text::lemma_upto(a, c);
    let n = text::upto(a, c) as int;
    if n < a.len() {
        let front = a.take(n);
        let rest = a.skip(n + 1);
        assert(a =~= front + seq![c] + rest);
        lemma_split_joined(rest, c, b);
        assert(a + seq![c] + b =~= front + seq![c] + (rest + seq![c] + b));
        text_laws::lemma_split_front(front, c, rest + seq![c] + b);
        text_laws::lemma_split_front(front, c, rest);
        assert(text::split_all(a + seq![c] + b, c) =~= text::split_all(a, c) + text::split_all(
            b,
            c,
        ));
    } else {
        assert(text_laws::lacks(a, c));
        text_laws::lemma_split_front(a, c, b);
        text_laws::lemma_split_one(a, c);
    }
}

proof fn lemma_filter_add(a: Seq<Seq<char>>, b: Seq<Seq<char>>)
    ensures
        (a + b).filter(discovery::counts()).map_values(discovery::part_of()) == a.filter(
            discovery::counts(),
        ).map_values(discovery::part_of()) + b.filter(discovery::counts()).map_values(
            discovery::part_of(),
        ),
{
    Seq::filter_distributes_over_add(a, b, discovery::counts());
    let x = a.filter(discovery::counts());
    let y = b.filter(discovery::counts());
    assert((x + y).map_values(discovery::part_of()) =~= x.map_values(discovery::part_of())
        + y.map_values(discovery::part_of()));
}

proof fn lemma_split_head(s: Seq<char>, c: char)
    ensures
        text::split_all(s, c).len() > 0,
        s.len() > 0 && s[0] == c ==> text::split_all(s, c)[0].len() == 0,
{
    text::lemma_upto(s, c);
}

/// What is written behind a path and a separator lies under the path.
pub proof fn what_stands_behind_a_path_lies_under_it(dir: Seq<char>, rest: Seq<char>)
    requires
        dir.len() > 0,
    ensures
        discovery::lies_under(dir + seq!['/'] + rest, dir),
        discovery::components(dir + seq!['/'] + rest).len() == discovery::components(dir).len()
            + text::split_all(rest, '/').filter(discovery::counts()).len(),
{
    let path = dir + seq!['/'] + rest;
    lemma_split_joined(dir, '/', rest);
    let a = text::split_all(dir, '/');
    let b = text::split_all(rest, '/');
    lemma_filter_add(a, b);
    lemma_split_head(dir, '/');
    assert(path[0] == dir[0]);
    assert((a + b)[0] == a[0]);
    let more = b.filter(discovery::counts()).map_values(discovery::part_of());
    assert(discovery::components(path) =~= discovery::components(dir) + more);
    assert(discovery::components(path).subrange(0, discovery::components(dir).len() as int)
        =~= discovery::components(dir));
}

/// A name in a directory is the last component of its path, behind those of
/// the directory.
pub proof fn a_name_is_the_last_component(dir: Seq<char>, name: Seq<char>)
    requires
        is_name(name),
        dir.len() > 0,
    ensures
        discovery::components(inside(dir, name)) == discovery::components(dir).push(
            PartModel::Normal(name),
        ),
        discovery::last_name(inside(dir, name)) == name,
{
    reveal_strlit(".");
    reveal_strlit("..");
    text_laws::lemma_split_one(name, '/');
    let one = seq![name];
    assert(one.filter(discovery::counts()) =~= one) by {
        reveal(Seq::filter);
        assert(one.drop_last() =~= Seq::<Seq<char>>::empty());
        assert(Seq::<Seq<char>>::empty().filter(discovery::counts()) =~= Seq::<
            Seq<char>,
        >::empty());
        assert((discovery::counts())(one.last()));
    }
    assert(one.map_values(discovery::part_of()) =~= seq![PartModel::Normal(name)]);
    let path = inside(dir, name);
    if dir.last() == '/' {
        let front = dir.drop_last();
        assert(dir =~= front + seq!['/'] + Seq::<char>::empty());
        assert(path =~= front + seq!['/'] + name);
        lemma_split_joined(front, '/', Seq::empty());
        lemma_split_joined(front, '/', name);
        text_laws::lemma_split_one(Seq::empty(), '/');
        let a = text::split_all(front, '/');
        let none = seq![Seq::<char>::empty()];
        lemma_filter_add(a, none);
        lemma_filter_add(a, one);
        assert(none.filter(discovery::counts()) =~= Seq::<Seq<char>>::empty()) by {
            order::lemma_filter_empty(none, discovery::counts());
        }
        assert(none.filter(discovery::counts()).map_values(discovery::part_of()) =~= Seq::<
            PartModel,
        >::empty());
        lemma_split_head(front, '/');
        assert((a + none)[0] == a[0] && (a + one)[0] == a[0]);
        assert(path[0] == dir[0]);
        assert(discovery::components(path) =~= discovery::components(dir).push(
            PartModel::Normal(name),
        ));
    } else {
        lemma_split_joined(dir, '/', name);
        let a = text::split_all(dir, '/');
        lemma_filter_add(a, one);
        lemma_split_head(dir, '/');
        assert((a + one)[0] == a[0]);
        assert(path[0] == dir[0]);
        assert(discovery::components(path) =~= discovery::components(dir).push(
            PartModel::Normal(name),
        ));
    }
}

/// What lies in a directory does not lie under another directory beside it,
/// however alike their names.
pub proof fn neighbours_do_not_lie_under_each_other(
    dir: Seq<char>,
    a: Seq<char>,
    b: Seq<char>,
    rest: Seq<char>,
)
    requires
        is_name(a),
        is_name(b),
        a != b,
        dir.len() > 0,
    ensures
        !discovery::lies_under(inside(dir, b) + seq!['/'] + rest, inside(dir, a)),
        !discovery::lies_under(inside(dir, b), inside(dir, a)),
{
    let path = inside(dir, b) + seq!['/'] + rest;
    a_name_is_the_last_component(dir, a);
    a_name_is_the_last_component(dir, b);
    what_stands_behind_a_path_lies_under_it(inside(dir, b), rest);
    let k = discovery::components(dir).len() as int;
    let x = discovery::components(inside(dir, a));
    let y = discovery::components(inside(dir, b));
    let z = discovery::components(path);
    assert(x[k] == PartModel::Normal(a) && y[k] == PartModel::Normal(b));
    assert(z.subrange(0, y.len() as int)[k] == z[k]);
    assert(z[k] == y[k]);
    if discovery::lies_under(path, inside(dir, a)) {
        assert(z.subrange(0, x.len() as int)[k] == z[k]);
        assert(false);
    }
    if discovery::lies_under(inside(dir, b), inside(dir, a)) {
        assert(y.subrange(0, x.len() as int)[k] == y[k]);
        assert(false);
    }
}

/// A change is of interest exactly where no directory or file on its path has
/// a name that is left out.
pub proof fn a_change_is_relevant_where_no_name_is_left_out(walker: WalkerModel, path: Seq<char>)
    requires
        forall|i: int| 0 <= i < walker.excludes.len() ==> is_name(#[trigger] walker.excludes[i]),
    ensures
        discovery::is_relevant(walker, path) <==> forall|i: int|
            0 <= i < text::split_all(path, '/').len() ==> !walker.excludes.contains(
                #[trigger] text::split_all(path, '/')[i],
            ),
{
    reveal_strlit(".");
    let pieces = text::split_all(path, '/');
    let kept = pieces.filter(discovery::counts());
    let parts = kept.map_values(discovery::part_of());
    let all = discovery::components(path);
    let n: int = all.len() - parts.len();
    order::lemma_filter_contains(pieces, discovery::counts());
    if !discovery::is_relevant(walker, path) {
        let i = choose|i: int|
            0 <= i < all.len() && discovery::is_left_out(walker, #[trigger] all[i]);
        assert(i >= n);
        assert(all[i] == parts[i - n]);
        let piece = kept[i - n];
        assert(kept.contains(piece));
        assert(walker.excludes.contains(piece));
        let k = choose|k: int| 0 <= k < pieces.len() && pieces[k] == piece;
        assert(walker.excludes.contains(pieces[k]));
    }
    if exists|i: int| 0 <= i < pieces.len() && walker.excludes.contains(#[trigger] pieces[i]) {
        let i = choose|i: int|
            0 <= i < pieces.len() && walker.excludes.contains(#[trigger] pieces[i]);
        let m = choose|m: int| 0 <= m < walker.excludes.len() && walker.excludes[m] == pieces[i];
        assert(is_name(walker.excludes[m]));
        assert(pieces.contains(pieces[i]));
        assert(kept.contains(pieces[i]));
        let k = choose|k: int| 0 <= k < kept.len() && kept[k] == pieces[i];
        assert(all[n + k] == parts[k]);
        assert(discovery::is_left_out(walker, all[n + k]));
    }
}

// --- the search ----------------------------------------------------------

/// Whether the entries of directories have names.
pub open spec fn is_named(disk: Disk) -> bool {
    forall|dir: Seq<char>, k: int|
        0 <= k < (disk.entries)(dir).len() ==> (#[trigger] (disk.entries)(dir)[k]).name.len() > 0
}

/// Whether a directory holds a directory of that name; a link to one is none.
pub open spec fn holds_dir(disk: Disk, dir: Seq<char>, name: Seq<char>) -> bool {
    exists|k: int|
        0 <= k < (disk.entries)(dir).len() && (#[trigger] (disk.entries)(dir)[k]).name == name
            && (disk.entries)(dir)[k].is_dir
}

/// Whether a name is neither hidden nor left out.
pub open spec fn is_searched(excludes: Seq<Seq<char>>, name: Seq<char>) -> bool {
    !(name.len() > 0 && name[0] == '.') && !excludes.contains(name)
}

/// Whether the search may go from the root through directories of the given
/// names.
pub open spec fn is_open(
    excludes: Seq<Seq<char>>,
    disk: Disk,
    root: Seq<char>,
    names: Seq<Seq<char>>,
) -> bool {
    forall|i: int|
        0 <= i < names.len() ==> is_searched(excludes, #[trigger] names[i]) && holds_dir(
            disk,
            path_below(root, names.take(i)),
            names[i],
        )
}

/// The name of the project that lies below a root: the way from the root, and
/// before it the root's own name where there are several roots.
pub open spec fn full_name(root: Seq<char>, names: Seq<Seq<char>>, several: bool) -> Seq<char> {
    if names.len() == 0 {
        discovery::last_name(root)
    } else if several {
        discovery::last_name(root) + seq!['/'] + text::joined(names, seq!['/'])
    } else {
        text::joined(names, seq!['/'])
    }
}

/// Whether a project is where the search may find one, under its name.
pub open spec fn is_project_at(
    walker: WalkerModel,
    disk: Disk,
    root: Seq<char>,
    several: bool,
    names: Seq<Seq<char>>,
    f: FoundModel,
) -> bool {
    &&& names.len() <= walker.max_depth
    &&& is_open(walker.excludes, disk, root, names)
    &&& f.path == path_below(root, names)
    &&& (disk.has_git)(f.path)
    &&& f.name == full_name(root, names, several)
}

proof fn lemma_joined_nonempty(names: Seq<Seq<char>>)
    requires
        forall|i: int| 0 <= i < names.len() ==> (#[trigger] names[i]).len() > 0,
    ensures
        names.len() > 0 ==> text::joined(names, seq!['/']).len() > 0,
    decreases names.len(),
{
    if names.len() == 1 {
        assert(names[0].len() > 0);
    }
}

/// One directory further.
proof fn lemma_step(
    walker: WalkerModel,
    disk: Disk,
    root: Seq<char>,
    names: Seq<Seq<char>>,
    name: Seq<char>,
)
    requires
        is_open(walker.excludes, disk, root, names),
        forall|i: int| 0 <= i < names.len() ==> (#[trigger] names[i]).len() > 0,
        name.len() > 0,
    ensures
        path_below(root, names.push(name)) == discovery::entry_path(path_below(root, names), name),
        text::joined(names.push(name), seq!['/']) == discovery::below(
            text::joined(names, seq!['/']),
            name,
        ),
        is_searched(walker.excludes, name) && holds_dir(disk, path_below(root, names), name)
            ==> is_open(walker.excludes, disk, root, names.push(name)),
{
    let longer = names.push(name);
    assert(longer.drop_last() =~= names);
    reveal_strlit("/");
    assert("/"@ =~= seq!['/']);
    lemma_joined_nonempty(names);
    if names.len() > 0 {
        assert(longer.last() == name);
    } else {
        assert(longer[0] == name);
    }
    if is_searched(walker.excludes, name) && holds_dir(disk, path_below(root, names), name) {
        assert forall|i: int| 0 <= i < longer.len() implies is_searched(
            walker.excludes,
            #[trigger] longer[i],
        ) && holds_dir(disk, path_below(root, longer.take(i)), longer[i]) by {
            if i < names.len() {
                assert(longer[i] == names[i]);
                assert(longer.take(i) =~= names.take(i));
            } else {
                assert(longer.take(i) =~= names);
            }
        }
    }
}

proof fn lemma_walked_sound(
    walker: WalkerModel,
    disk: Disk,
    root: Seq<char>,
    several: bool,
    names: Seq<Seq<char>>,
    f: FoundModel,
) -> (more: Seq<Seq<char>>)
    requires
        is_named(disk),
        names.len() <= walker.max_depth,
        is_open(walker.excludes, disk, root, names),
        forall|i: int| 0 <= i < names.len() ==> (#[trigger] names[i]).len() > 0,
        walker.walked(
            disk,
            root,
            several,
            path_below(root, names),
            text::joined(names, seq!['/']),
            names.len(),
        ).contains(f),
    ensures
        is_project_at(walker, disk, root, several, more, f),
    decreases walker.max_depth - names.len(), 1nat, 0nat,
{
    let dir = path_below(root, names);
    let relative = text::joined(names, seq!['/']);
    let depth = names.len();
    let all = walker.walked(disk, root, several, dir, relative, depth);
    let k = choose|k: int| 0 <= k < all.len() && all[k] == f;
    lemma_joined_nonempty(names);
    reveal_strlit("/");
    assert("/"@ =~= seq!['/']);
    if depth < walker.max_depth {
        let entries = (disk.entries)(dir);
        let below = walker.walked_all(disk, root, several, dir, relative, depth, entries);
        let here: int = all.len() - below.len();
        if k >= here {
            assert(below[k - here] == f);
            assert(below.contains(f));
            assert(entries.take(entries.len() as int) =~= entries);
            lemma_all_sound(walker, disk, root, several, names, entries.len() as int, f)
        } else {
            names
        }
    } else {
        names
    }
}

proof fn lemma_all_sound(
    walker: WalkerModel,
    disk: Disk,
    root: Seq<char>,
    several: bool,
    names: Seq<Seq<char>>,
    n: int,
    f: FoundModel,
) -> (more: Seq<Seq<char>>)
    requires
        is_named(disk),
        names.len() < walker.max_depth,
        is_open(walker.excludes, disk, root, names),
        forall|i: int| 0 <= i < names.len() ==> (#[trigger] names[i]).len() > 0,
        0 <= n <= (disk.entries)(path_below(root, names)).len(),
        walker.walked_all(
            disk,
            root,
            several,
            path_below(root, names),
            text::joined(names, seq!['/']),
            names.len(),
            (disk.entries)(path_below(root, names)).take(n),
        ).contains(f),
    ensures
        is_project_at(walker, disk, root, several, more, f),
    decreases walker.max_depth - names.len(), 0nat, n,
{
    let dir = path_below(root, names);
    let relative = text::joined(names, seq!['/']);
    let depth = names.len();
    let entries = (disk.entries)(dir).take(n);
    let all = walker.walked_all(disk, root, several, dir, relative, depth, entries);
    let k = choose|k: int| 0 <= k < all.len() && all[k] == f;
    assert(n > 0);
    assert(entries.drop_last() =~= (disk.entries)(dir).take(n - 1));
    let front = walker.walked_all(
        disk,
        root,
        several,
        dir,
        relative,
        depth,
        entries.drop_last(),
    );
    if k < front.len() {
        assert(front[k] == f);
        assert(front.contains(f));
        lemma_all_sound(walker, disk, root, several, names, n - 1, f)
    } else {
        let e = entries.last();
        assert(e == (disk.entries)(dir)[n - 1]);
        assert(walker.enters(e));
        assert(e.is_dir && is_searched(walker.excludes, e.name));
        assert(holds_dir(disk, dir, e.name));
        lemma_step(walker, disk, root, names, e.name);
        let longer = names.push(e.name);
        let last = walker.walked(
            disk,
            root,
            several,
            discovery::entry_path(dir, e.name),
            discovery::below(relative, e.name),
            depth + 1,
        );
        assert(last[k - front.len()] == f);
        assert(last.contains(f));
        assert forall|i: int| 0 <= i < longer.len() implies (#[trigger] longer[i]).len() > 0 by {
            if i < names.len() {
                assert(longer[i] == names[i]);
            }
        }
        lemma_walked_sound(walker, disk, root, several, longer, f)
    }
}

proof fn lemma_roots_hold(
    walker: WalkerModel,
    disk: Disk,
    several: bool,
    roots: Seq<Seq<char>>,
    f: FoundModel,
)
    ensures
        walker.walked_roots(disk, several, roots).contains(f) <==> exists|r: int|
            0 <= r < roots.len() && walker.walked(
                disk,
                #[trigger] roots[r],
                several,
                roots[r],
                seq![],
                0,
            ).contains(f),
    decreases roots.len(),
{
    let all = walker.walked_roots(disk, several, roots);
    if roots.len() > 0 {
        let rest = roots.drop_last();
        lemma_roots_hold(walker, disk, several, rest, f);
        let front = walker.walked_roots(disk, several, rest);
        let last = walker.walked(disk, roots.last(), several, roots.last(), seq![], 0);
        if all.contains(f) {
            let k = choose|k: int| 0 <= k < all.len() && all[k] == f;
            if k < front.len() {
                assert(front[k] == f);
                assert(front.contains(f));
                let r = choose|r: int|
                    0 <= r < rest.len() && walker.walked(
                        disk,
                        #[trigger] rest[r],
                        several,
                        rest[r],
                        seq![],
                        0,
                    ).contains(f);
                assert(roots[r] == rest[r]);
            } else {
                assert(last[k - front.len()] == f);
                assert(last.contains(f));
                assert(roots[roots.len() - 1] == roots.last());
            }
        }
        if exists|r: int|
            0 <= r < roots.len() && walker.walked(
                disk,
                #[trigger] roots[r],
                several,
                roots[r],
                seq![],
                0,
            ).contains(f) {
            let r = choose|r: int|
                0 <= r < roots.len() && walker.walked(
                    disk,
                    #[trigger] roots[r],
                    several,
                    roots[r],
                    seq![],
                    0,
                ).contains(f);
            if r < rest.len() {
                assert(rest[r] == roots[r]);
                assert(front.contains(f));
                let k = choose|k: int| 0 <= k < front.len() && front[k] == f;
                assert(all[k] == f);
            } else {
                let k = choose|k: int| 0 <= k < last.len() && last[k] == f;
                assert(all[front.len() + k] == f);
            }
        }
    }
}

/// Every project that is found has `.git` in it and lies below one of the roots,
/// no deeper than the search goes; no directory on the way to it is hidden,
/// left out or a link. Its name is the way to it.
pub proof fn a_found_project_lies_where_the_search_goes(
    walker: WalkerModel,
    disk: Disk,
    roots: Seq<Seq<char>>,
    f: FoundModel,
)
    requires
        is_named(disk),
        walker.discovered(disk, roots).contains(f),
    ensures
        exists|r: int, names: Seq<Seq<char>>|
            0 <= r < roots.len() && f.path == #[trigger] path_below(roots[r], names)
                && is_project_at(walker, disk, roots[r], roots.len() > 1, names, f),
{
    discovery::every_project_is_found_once(walker, disk, roots);
    let several = roots.len() > 1;
    lemma_roots_hold(walker, disk, several, roots, f);
    let r = choose|r: int|
        0 <= r < roots.len() && walker.walked(
            disk,
            #[trigger] roots[r],
            several,
            roots[r],
            seq![],
            0,
        ).contains(f);
    let none = Seq::<Seq<char>>::empty();
    assert(text::joined(none, seq!['/']) =~= seq![]);
    let names = lemma_walked_sound(walker, disk, roots[r], several, none, f);
    assert(f.path == path_below(roots[r], names));
}

proof fn lemma_walked_whole(
    walker: WalkerModel,
    disk: Disk,
    root: Seq<char>,
    several: bool,
    names: Seq<Seq<char>>,
    depth: nat,
    f: FoundModel,
)
    requires
        depth <= names.len(),
        is_project_at(walker, disk, root, several, names, f),
        forall|i: int| 0 <= i < names.len() ==> (#[trigger] names[i]).len() > 0,
    ensures
        walker.walked(
            disk,
            root,
            several,
            path_below(root, names.take(depth as int)),
            text::joined(names.take(depth as int), seq!['/']),
            depth,
        ).contains(f),
    decreases names.len() - depth,
{
    let near = names.take(depth as int);
    let dir = path_below(root, near);
    let relative = text::joined(near, seq!['/']);
    let all = walker.walked(disk, root, several, dir, relative, depth);
    reveal_strlit("/");
    assert("/"@ =~= seq!['/']);
    assert forall|i: int| 0 <= i < near.len() implies (#[trigger] near[i]).len() > 0 by {
        assert(near[i] == names[i]);
    }
    lemma_joined_nonempty(near);
    if depth == names.len() {
        assert(near =~= names);
        assert(all[0] == f);
    } else {
        lemma_walked_whole(walker, disk, root, several, names, depth + 1, f);
        let name = names[depth as int];
        assert(is_searched(walker.excludes, name) && holds_dir(disk, dir, name));
        assert forall|i: int| 0 <= i < near.len() implies is_searched(
            walker.excludes,
            #[trigger] near[i],
        ) && holds_dir(disk, path_below(root, near.take(i)), near[i]) by {
            assert(near[i] == names[i]);
            assert(near.take(i) =~= names.take(i));
        }
        lemma_step(walker, disk, root, near, name);
        assert(near.push(name) =~= names.take(depth as int + 1));
        let entries = (disk.entries)(dir);
        let k = choose|k: int|
            0 <= k < entries.len() && (#[trigger] entries[k]).name == name && entries[k].is_dir;
        lemma_all_whole(walker, disk, root, several, dir, relative, depth, entries, k, f);
        let below = walker.walked_all(disk, root, several, dir, relative, depth, entries);
        let m = choose|m: int| 0 <= m < below.len() && below[m] == f;
        assert(all[all.len() - below.len() + m] == f);
    }
}

proof fn lemma_all_whole(
    walker: WalkerModel,
    disk: Disk,
    root: Seq<char>,
    several: bool,
    dir: Seq<char>,
    relative: Seq<char>,
    depth: nat,
    entries: Seq<discovery::EntryModel>,
    k: int,
    f: FoundModel,
)
    requires
        depth < walker.max_depth,
        0 <= k < entries.len(),
        entries[k].is_dir && is_searched(walker.excludes, entries[k].name),
        walker.walked(
            disk,
            root,
            several,
            discovery::entry_path(dir, entries[k].name),
            discovery::below(relative, entries[k].name),
            depth + 1,
        ).contains(f),
    ensures
        walker.walked_all(disk, root, several, dir, relative, depth, entries).contains(f),
    decreases entries.len(),
{
    let all = walker.walked_all(disk, root, several, dir, relative, depth, entries);
    let front = walker.walked_all(
        disk,
        root,
        several,
        dir,
        relative,
        depth,
        entries.drop_last(),
    );
    if k < entries.len() - 1 {
        assert(entries.drop_last()[k] == entries[k]);
        lemma_all_whole(
            walker,
            disk,
            root,
            several,
            dir,
            relative,
            depth,
            entries.drop_last(),
            k,
            f,
        );
        let m = choose|m: int| 0 <= m < front.len() && front[m] == f;
        assert(all[m] == f);
    } else {
        let e = entries.last();
        assert(walker.enters(e));
        let last = walker.walked(
            disk,
            root,
            several,
            discovery::entry_path(dir, e.name),
            discovery::below(relative, e.name),
            depth + 1,
        );
        let m = choose|m: int| 0 <= m < last.len() && last[m] == f;
        assert(all[front.len() + m] == f);
    }
}

/// Every directory with `.git` in it, no deeper below a root than the search
/// goes, is found, unless a directory on the way to it is hidden, left out or
/// a link.
pub proof fn every_project_in_reach_is_found(
    walker: WalkerModel,
    disk: Disk,
    roots: Seq<Seq<char>>,
    r: int,
    names: Seq<Seq<char>>,
)
    requires
        is_named(disk),
        0 <= r < roots.len(),
        names.len() <= walker.max_depth,
        is_open(walker.excludes, disk, roots[r], names),
        (disk.has_git)(path_below(roots[r], names)),
    ensures
        exists|g: FoundModel| #[trigger]
            walker.discovered(disk, roots).contains(g) && discovery::same_path(
                g.path,
                path_below(roots[r], names),
            ),
{
    let several = roots.len() > 1;
    let f = FoundModel {
        path: path_below(roots[r], names),
        name: full_name(roots[r], names, several),
    };
    assert forall|i: int| 0 <= i < names.len() implies (#[trigger] names[i]).len() > 0 by {
        assert(holds_dir(disk, path_below(roots[r], names.take(i)), names[i]));
    }
    lemma_walked_whole(walker, disk, roots[r], several, names, 0, f);
    assert(names.take(0) =~= Seq::<Seq<char>>::empty());
    assert(text::joined(names.take(0), seq!['/']) =~= seq![]);
    lemma_roots_hold(walker, disk, several, roots, f);
    assert(walker.walked(disk, roots[r], several, roots[r], seq![], 0).contains(f));
    discovery::a_walked_project_is_found(walker, disk, roots, several, f);
}

// --- how paths are written -----------------------------------------------

/// A dot between separators, or no name at all, makes no difference to a path,
/// and neither does a separator at its end.
pub proof fn dots_and_doubled_separators_do_not_count(dir: Seq<char>, rest: Seq<char>)
    requires
        dir.len() > 0,
    ensures
        discovery::same_path(dir + seq!['/', '.', '/'] + rest, dir + seq!['/'] + rest),
        discovery::same_path(dir + seq!['/', '/'] + rest, dir + seq!['/'] + rest),
        discovery::same_path(dir + seq!['/'], dir),
{
    reveal_strlit(".");
    let counts = discovery::counts();
    let plain = dir + seq!['/'] + rest;
    let tail = text::split_all(rest, '/');
    let front = text::split_all(dir, '/');
    lemma_split_head(dir, '/');
    lemma_split_joined(dir, '/', rest);
    // A dot.
    let dot = seq!['.'] + seq!['/'] + rest;
    assert(dir + seq!['/', '.', '/'] + rest =~= dir + seq!['/'] + dot);
    lemma_split_joined(dir, '/', dot);
    assert(text_laws::lacks(seq!['.'], '/'));
    text_laws::lemma_split_front(seq!['.'], '/', rest);
    assert("."@ =~= seq!['.']);
    lemma_uncounted(front, seq!['.'], tail);
    // Nothing.
    let none = Seq::<char>::empty() + seq!['/'] + rest;
    assert(dir + seq!['/', '/'] + rest =~= dir + seq!['/'] + none);
    lemma_split_joined(dir, '/', none);
    assert(text_laws::lacks(Seq::<char>::empty(), '/'));
    text_laws::lemma_split_front(Seq::<char>::empty(), '/', rest);
    lemma_uncounted(front, Seq::<char>::empty(), tail);
    // The end.
    let empty = Seq::<char>::empty();
    assert(dir + seq!['/'] =~= dir + seq!['/'] + empty);
    lemma_split_joined(dir, '/', empty);
    text_laws::lemma_split_one(empty, '/');
    lemma_uncounted(front, empty, seq![]);
    assert(front + (seq![empty] + seq![]) =~= front + seq![empty]);
    assert(front + seq![] =~= front);
    let a = dir + seq!['/'] + dot;
    let b = dir + seq!['/'] + none;
    let c = dir + seq!['/'] + empty;
    assert(a[0] == dir[0] && b[0] == dir[0] && c[0] == dir[0] && plain[0] == dir[0]);
    assert((front + tail)[0] == front[0]);
}

/// A piece that does not count, between others.
proof fn lemma_uncounted(front: Seq<Seq<char>>, piece: Seq<char>, tail: Seq<Seq<char>>)
    requires
        !(discovery::counts())(piece),
        front.len() > 0,
    ensures
        (front + (seq![piece] + tail)).filter(discovery::counts()).map_values(discovery::part_of())
            == (front + tail).filter(discovery::counts()).map_values(discovery::part_of()),
        (front + (seq![piece] + tail))[0] == front[0],
        (front + (seq![piece] + tail)).len() > 0,
{
    lemma_filter_add(front, seq![piece] + tail);
    lemma_filter_add(seq![piece], tail);
    lemma_filter_add(front, tail);
    order::lemma_filter_empty(seq![piece], discovery::counts());
    let none = seq![piece].filter(discovery::counts()).map_values(discovery::part_of());
    assert(none =~= Seq::<PartModel>::empty());
    let rest = tail.filter(discovery::counts()).map_values(discovery::part_of());
    assert(none + rest =~= rest);
}

/// Two dots in a path are a step up and no name.
pub proof fn two_dots_are_no_name(dir: Seq<char>)
    requires
        dir.len() > 0,
    ensures
        discovery::components(dir + seq!['/', '.', '.']) == discovery::components(dir).push(
            PartModel::Parent,
        ),
{
    reveal_strlit("..");
    reveal_strlit(".");
    let up = seq!['.', '.'];
    assert(".."@ =~= up);
    assert("."@.len() == 1);
    let path = dir + seq!['/'] + up;
    assert(dir + seq!['/', '.', '.'] =~= path);
    lemma_split_joined(dir, '/', up);
    assert(text_laws::lacks(up, '/'));
    text_laws::lemma_split_one(up, '/');
    let front = text::split_all(dir, '/');
    lemma_split_head(dir, '/');
    lemma_filter_add(front, seq![up]);
    lemma_one_step_up(up);
    let pieces = text::split_all(path, '/');
    assert(pieces == front + seq![up]);
    assert(path[0] == dir[0]);
    assert(pieces[0] == front[0]);
    let names = front.filter(discovery::counts()).map_values(discovery::part_of());
    let all = pieces.filter(discovery::counts()).map_values(discovery::part_of());
    assert(all == names + seq![PartModel::Parent]);
    assert(discovery::components(path) =~= discovery::components(dir).push(PartModel::Parent));
}

proof fn lemma_one_step_up(up: Seq<char>)
    requires
        up == ".."@,
    ensures
        seq![up].filter(discovery::counts()).map_values(discovery::part_of()) == seq![
            PartModel::Parent,
        ],
{
    reveal_strlit("..");
    reveal_strlit(".");
    reveal(Seq::filter);
    assert(up.len() == 2 && "."@.len() == 1);
    assert(seq![up].drop_last() =~= Seq::<Seq<char>>::empty());
    assert(Seq::<Seq<char>>::empty().filter(discovery::counts()) =~= Seq::<Seq<char>>::empty());
    assert(seq![up].filter(discovery::counts()) =~= seq![up]);
    assert(seq![up].map_values(discovery::part_of()) =~= seq![PartModel::Parent]);
}

/// A directory stands before what lies in it, and what lies in one directory
/// stands by the names in which the paths differ.
pub proof fn a_directory_stands_before_what_it_holds(
    dir: Seq<PartModel>,
    name: Seq<char>,
    rest: Seq<PartModel>,
    other: Seq<char>,
    more: Seq<PartModel>,
)
    ensures
        discovery::parts_before(dir, dir + seq![PartModel::Normal(name)] + rest),
        !discovery::parts_before(dir + seq![PartModel::Normal(name)] + rest, dir),
        name != other ==> discovery::parts_before(
            dir + seq![PartModel::Normal(name)] + rest,
            dir + seq![PartModel::Normal(other)] + more,
        ) == text::precedes(name, other),
    decreases dir.len(),
{
    let x = dir + seq![PartModel::Normal(name)] + rest;
    let y = dir + seq![PartModel::Normal(other)] + more;
    if dir.len() > 0 {
        a_directory_stands_before_what_it_holds(dir.skip(1), name, rest, other, more);
        assert(x.skip(1) =~= dir.skip(1) + seq![PartModel::Normal(name)] + rest);
        assert(y.skip(1) =~= dir.skip(1) + seq![PartModel::Normal(other)] + more);
        assert(x[0] == dir[0] && y[0] == dir[0]);
    } else {
        assert(x[0] == PartModel::Normal(name) && y[0] == PartModel::Normal(other));
    }
}

/// An absolute path is not the relative one that is written behind its
/// separator, and neither is one that begins with a dot and a separator.
pub proof fn the_front_of_a_path_counts(rest: Seq<char>)
    requires
        rest.len() > 0 && rest[0] != '/' && rest[0] != '.',
    ensures
        discovery::components(seq!['/'] + rest) == seq![PartModel::Root] + discovery::components(
            rest,
        ),
        discovery::components(seq!['.', '/'] + rest) == seq![PartModel::Current]
            + discovery::components(rest),
{
    reveal_strlit(".");
    assert("."@ =~= seq!['.']);
    let empty = Seq::<char>::empty();
    let dot = seq!['.'];
    let tail = text::split_all(rest, '/');
    lemma_split_head(rest, '/');
    assert(tail[0].len() > 0 ==> tail[0][0] == rest[0]) by {
        text::lemma_upto(rest, '/');
    }
    assert(tail[0] != dot) by {
        if tail[0] == dot {
            assert(dot[0] == '.');
        }
    }
    let names = tail.filter(discovery::counts()).map_values(discovery::part_of());
    assert(discovery::components(rest) =~= names);
    let absolute = seq!['/'] + rest;
    assert(absolute =~= empty + seq!['/'] + rest);
    assert(text_laws::lacks(empty, '/'));
    text_laws::lemma_split_front(empty, '/', rest);
    lemma_one_uncounted(empty, tail);
    assert(absolute[0] == '/');
    let relative = seq!['.', '/'] + rest;
    assert(relative =~= dot + seq!['/'] + rest);
    assert(text_laws::lacks(dot, '/'));
    text_laws::lemma_split_front(dot, '/', rest);
    lemma_one_uncounted(dot, tail);
    assert(relative[0] == '.');
    assert((seq![dot] + tail)[0] == dot);
}

proof fn lemma_one_uncounted(piece: Seq<char>, tail: Seq<Seq<char>>)
    requires
        !(discovery::counts())(piece),
    ensures
        (seq![piece] + tail).filter(discovery::counts()).map_values(discovery::part_of())
            == tail.filter(discovery::counts()).map_values(discovery::part_of()),
{
    lemma_filter_add(seq![piece], tail);
    order::lemma_filter_empty(seq![piece], discovery::counts());
    let none = seq![piece].filter(discovery::counts()).map_values(discovery::part_of());
    assert(none =~= Seq::<PartModel>::empty());
    let rest = tail.filter(discovery::counts()).map_values(discovery::part_of());
    assert(none + rest =~= rest);
}

/// A path that does not end in a name is called by itself.
pub proof fn a_path_without_a_name_is_called_by_itself(path: Seq<char>)
    ensures
        !(discovery::components(path).len() > 0 && discovery::components(path).last() is Normal)
            ==> discovery::last_name(path) == path,
        discovery::components(path).len() > 0 && discovery::components(path).last() is Normal
            ==> PartModel::Normal(discovery::last_name(path)) == discovery::components(path).last(),
{
}

} // verus!
