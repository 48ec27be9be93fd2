//! Files below a root directory. A request path is joined to the root
//! component by component; `..` takes back only what the path itself has
//! added, so the result never leaves the root.

use vstd::prelude::*;

verus! {

/// One component of a path.
#[derive(Debug)]
pub enum Component {
    /// A volume or drive prefix; it is ignored.
    Prefix,
    /// The root directory, at the head of an absolute path.
    RootDir,
    /// `.`
    CurDir,
    /// `..`
    ParentDir,
    /// A name.
    Normal(String),
}

/// A directory as the names on the way to it, and how many of them were
/// added by the path joined so far.
pub struct Joined {
    pub path: Seq<Seq<char>>,
    pub depth: nat,
}

/// The names as characters.
pub open spec fn names(v: Seq<String>) -> Seq<Seq<char>> {
    Seq::new(v.len(), |i: int| v[i]@)
}

/// `path` without its last `n` names, or without any where it has fewer.
pub open spec fn without_last(path: Seq<Seq<char>>, n: nat) -> Seq<Seq<char>> {
    if n <= path.len() {
        path.take(path.len() - n)
    } else {
        Seq::empty()
    }
}

/// The directory after one more component: a name is added; `..` takes the
/// last name back if the path has added one; the root directory takes back
/// the `fs_depth` names that lead from the served root to the directory;
/// the others change nothing.
pub open spec fn step(j: Joined, c: Component, fs_depth: nat) -> Joined {
    match c {
        Component::Prefix => j,
        Component::CurDir => j,
        Component::RootDir => Joined { path: without_last(j.path, fs_depth), depth: j.depth },
        Component::ParentDir => if j.depth > 0 {
            Joined { path: without_last(j.path, 1), depth: (j.depth - 1) as nat }
        } else {
            j
        },
        Component::Normal(name) => Joined { path: j.path.push(name@), depth: j.depth + 1 },
    }
}

/// The directory after all of `append`, from `start`.
pub open spec fn join_from(start: Joined, append: Seq<Component>, fs_depth: nat) -> Joined
    decreases append.len(),
{
    if append.len() == 0 {
        start
    } else {
        step(join_from(start, append.drop_last(), fs_depth), append.last(), fs_depth)
    }
}

/// The names on the way to `append` below `base`.
pub open spec fn join_spec(base: Seq<Seq<char>>, append: Seq<Component>, fs_depth: nat) -> Seq<
    Seq<char>,
> {
    join_from(Joined { path: base, depth: 0 }, append, fs_depth).path
}

/// Wherever `append` names the root directory, the directory reached so far
/// has the `fs_depth` names that are taken back.
pub open spec fn roots_fit(base: Seq<Seq<char>>, append: Seq<Component>, fs_depth: nat) -> bool {
    forall|i: int|
        0 <= i < append.len() && #[trigger] append[i] is RootDir ==> fs_depth <= join_spec(
            base,
            append.take(i),
            fs_depth,
        ).len()
}

/// `path` starts with `head`.
pub open spec fn below(path: Seq<Seq<char>>, head: Seq<Seq<char>>) -> bool {
    head.len() <= path.len() && path.take(head.len() as int) == head
}

/// No component of `append` is the root directory.
pub open spec fn is_relative(append: Seq<Component>) -> bool {
    forall|i: int| 0 <= i < append.len() ==> !(#[trigger] append[i] is RootDir)
}

/// The names on the way to `append` below `base`. Names are added to `base`;
/// `..` takes back only names of `append`; the root directory takes back
/// `fs_depth` names.
pub fn escape_join(base: Vec<String>, append: &Vec<Component>, fs_depth: usize) -> (r: Vec<String>)
    requires
        roots_fit(names(base@), append@, fs_depth as nat),
    ensures
        names(r@) == join_spec(names(base@), append@, fs_depth as nat),
{
    let ghost start = Joined { path: names(base@), depth: 0 };
    let mut path = base;
    let mut depth: usize = 0;
    let mut i: usize = 0;
    assert(append@.take(0) =~= Seq::<Component>::empty());
    while i < append.len()
        invariant
            i <= append@.len(),
            depth <= i,
            start == (Joined { path: names(base@), depth: 0 }),
            roots_fit(names(base@), append@, fs_depth as nat),
            join_from(start, append@.take(i as int), fs_depth as nat) == (Joined {
                path: names(path@),
                depth: depth as nat,
            }),
        decreases append@.len() - i,
    {
        let ghost before = path@;
        proof {
            let next = append@.take(i + 1);
            assert(next.drop_last() =~= append@.take(i as int));
            assert(next.last() == append@[i as int]);
        }
        match &append[i] {
            Component::Prefix => {},
            Component::CurDir => {},
            Component::RootDir => {
                assert(fs_depth <= path@.len());
                let keep: usize = path.len() - fs_depth;
                path.truncate(keep);
                assert(names(path@) =~= without_last(names(before), fs_depth as nat));
            },
            Component::ParentDir => {
                if depth > 0 {
                    path.pop();
                    depth = depth - 1;
                    assert(names(path@) =~= without_last(names(before), 1));
                }
            },
            Component::Normal(name) => {
                let name = name.clone();
                path.push(name);
                depth = depth + 1;
                assert(names(path@) =~= names(before).push(name@));
            },
        }
        i = i + 1;
    }
    assert(append@.take(i as int) =~= append@);
    path
}

/// The files below a root directory.
pub struct RelativeFs {
    /// The names on the way to the directory.
    pub root: Vec<String>,
    /// How many of them lie below the root that is served.
    pub depth: usize,
}

impl RelativeFs {
    /// The files below `path`, which is the root that is served.
    pub fn new(path: Vec<String>) -> (fs: Self)
        ensures
            fs.root@ == path@,
            fs.depth == 0,
    {
        RelativeFs { root: path, depth: 0 }
    }

    /// The names on the way to `path` in these files.
    pub fn resolve(&self, path: &Vec<Component>) -> (r: Vec<String>)
        requires
            roots_fit(names(self.root@), path@, self.depth as nat),
        ensures
            names(r@) == join_spec(names(self.root@), path@, self.depth as nat),
    {
        let root = self.root.clone();
        assert(names(root@) =~= names(self.root@)) by {
            assert forall|i: int| 0 <= i < root@.len() implies root@[i]@ == self.root@[i]@ by {
                assert(cloned::<String>(self.root@[i], root@[i]));
            }
        }
        escape_join(root, path, self.depth)
    }
}

/// Joining `rest` to a directory that is at least `j.depth` names below
/// `head` gives a directory below `head`.
pub proof fn lemma_join_below(j: Joined, rest: Seq<Component>, fs_depth: nat, head: Seq<Seq<char>>)
    requires
        is_relative(rest),
        below(j.path, head),
        head.len() + j.depth <= j.path.len(),
    ensures
        below(join_from(j, rest, fs_depth).path, head),
        head.len() + join_from(j, rest, fs_depth).depth <= join_from(j, rest, fs_depth).path.len(),
    decreases rest.len(),
{
    if rest.len() > 0 {
        let front = rest.drop_last();
        assert(is_relative(front)) by {
            assert forall|i: int| 0 <= i < front.len() implies !(#[trigger] front[i] is RootDir) by {
                assert(front[i] == rest[i]);
            }
        }
        lemma_join_below(j, front, fs_depth, head);
        let mid = join_from(j, front, fs_depth);
        let end = step(mid, rest.last(), fs_depth);
        assert(!(rest[rest.len() - 1] is RootDir));
        assert(end.path.take(head.len() as int) =~= mid.path.take(head.len() as int));
    }
}

/// A path that starts at the root directory is joined as the rest of it is
/// joined to the directory that the root directory leaves.
pub proof fn lemma_join_first(j: Joined, append: Seq<Component>, fs_depth: nat)
    requires
        append.len() > 0,
    ensures
        join_from(j, append, fs_depth) == join_from(
            step(j, append[0], fs_depth),
            append.skip(1),
            fs_depth,
        ),
    decreases append.len(),
{
    let first = step(j, append[0], fs_depth);
    if append.len() == 1 {
        assert(append.drop_last() =~= Seq::<Component>::empty());
        assert(append.skip(1) =~= Seq::<Component>::empty());
        assert(join_from(j, append.drop_last(), fs_depth) == j);
        assert(append.last() == append[0]);
        assert(join_from(first, append.skip(1), fs_depth) == first);
    } else {
        let front = append.drop_last();
        lemma_join_first(j, front, fs_depth);
        assert(front.skip(1) =~= append.skip(1).drop_last());
        assert(front[0] == append[0]);
        assert(append.skip(1).last() == append.last());
        assert(join_from(j, append, fs_depth) == step(
            join_from(j, front, fs_depth),
            append.last(),
            fs_depth,
        ));
        assert(join_from(first, append.skip(1), fs_depth) == step(
            join_from(first, append.skip(1).drop_last(), fs_depth),
            append.skip(1).last(),
            fs_depth,
        ));
    }
}

/// A relative path never leaves the directory it is joined to: whatever
/// `..` it holds, the result lies below `base`.
pub proof fn law_relative_path_stays_below(
    base: Seq<Seq<char>>,
    append: Seq<Component>,
    fs_depth: nat,
)
    requires
        is_relative(append),
    ensures
        below(join_spec(base, append, fs_depth), base),
{
    assert(base.take(base.len() as int) =~= base);
    lemma_join_below(Joined { path: base, depth: 0 }, append, fs_depth, base);
}

/// An absolute path never leaves the root that is served: it is resolved
/// from the directory `fs_depth` names above `base`, and the result lies
/// below that directory.
pub proof fn law_absolute_path_stays_below(
    base: Seq<Seq<char>>,
    append: Seq<Component>,
    fs_depth: nat,
)
    requires
        append.len() > 0,
        append[0] is RootDir,
        is_relative(append.skip(1)),
        fs_depth <= base.len(),
    ensures
        below(join_spec(base, append, fs_depth), without_last(base, fs_depth)),
{
    let start = Joined { path: base, depth: 0 };
    let head = without_last(base, fs_depth);
    lemma_join_first(start, append, fs_depth);
    assert(head.take(head.len() as int) =~= head);
    lemma_join_below(step(start, append[0], fs_depth), append.skip(1), fs_depth, head);
}

/// Below a root that was made by [`RelativeFs::new`] no path leaves the
/// root, whatever its components are.
pub proof fn law_served_root_is_kept(base: Seq<Seq<char>>, append: Seq<Component>)
    ensures
        below(join_spec(base, append, 0), base),
        roots_fit(base, append, 0),
{
    lemma_root_kept(base, append);
}

/// With no names to take back, the directory reached is `base` and the
/// names that the path has added.
pub proof fn lemma_root_kept(base: Seq<Seq<char>>, append: Seq<Component>)
    ensures
        below(join_spec(base, append, 0), base),
        join_spec(base, append, 0).len() == base.len() + join_from(
            Joined { path: base, depth: 0 },
            append,
            0,
        ).depth,
    decreases append.len(),
{
    let start = Joined { path: base, depth: 0 };
    if append.len() == 0 {
        assert(base.take(base.len() as int) =~= base);
    } else {
        lemma_root_kept(base, append.drop_last());
        let mid = join_from(start, append.drop_last(), 0);
        let end = step(mid, append.last(), 0);
        assert(end.path.take(base.len() as int) =~= mid.path.take(base.len() as int));
    }
}

} // verus!
