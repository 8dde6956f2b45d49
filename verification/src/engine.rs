//! The materialization engine.
//!
//! The engine owns a path-context stack and borrows the group table.  It
//! walks a sequence of folder nodes in order and records, for every node,
//! the directory-creation calls the walk issues: a leaf whose name matches
//! a group expands to that group's nodes at the current depth, any other
//! leaf becomes one creation call, and an interior node becomes a creation
//! call followed by its children one level deeper.  The recorded calls form
//! the plan; running the plan in order (each call creating one directory
//! under the previous ones) is left to the caller.
//!
//! Group references and literal leaf names share one namespace: a leaf
//! whose name matches a group is always an expansion, never a directory of
//! that name.  This is a known limitation of the configuration format, kept
//! deliberately.
//!
//! Expansion is fueled: each nested group expansion consumes one unit, and
//! the walk starts with one unit per group.  An acyclic set of groups can
//! never nest expansions deeper than the number of groups, so fuel runs out
//! only when group definitions reference each other in a cycle; that walk
//! stops with [`ConfigError::GroupCycle`].

use vstd::prelude::*;
use vstd::string::StringExecFns;

use crate::config::{ConfigError, ConfigErrorView};
use crate::folder::{fview, fviews, lemma_fviews_index, Folder, FolderView};
use crate::groups::GroupTable;

verus! {

/// The views of a sequence of strings, element by element.
pub open spec fn seq_views(s: Seq<String>) -> Seq<Seq<char>> {
    s.map_values(|x: String| x@)
}

/// The text that precedes a name created under `path`: `./` followed by
/// each segment of `path`, each with a trailing slash.
pub open spec fn path_prefix(path: Seq<Seq<char>>) -> Seq<char>
    decreases path.len(),
{
    if path.len() == 0 {
        "./"@
    } else {
        path_prefix(path.drop_last()) + path.last() + "/"@
    }
}

/// The full relative path of a directory named `name` created under
/// `path`.
pub open spec fn render(path: Seq<Seq<char>>, name: Seq<char>) -> Seq<char> {
    path_prefix(path) + name
}

/// How many nodes a folder view holds, itself included.
pub open spec fn view_size(nv: FolderView) -> nat
    decreases nv,
{
    match nv {
        FolderView::Final(_) => 1,
        FolderView::TopLevel(_, children) => 1 + views_size(children),
    }
}

/// How many nodes a sequence of folder views holds in total.
pub open spec fn views_size(s: Seq<FolderView>) -> nat
    decreases s,
{
    if s.len() == 0 {
        0
    } else {
        view_size(s[0]) + views_size(s.drop_first())
    }
}

/// Every element counts towards the total size.
pub proof fn lemma_views_size_elem(s: Seq<FolderView>, i: int)
    requires
        0 <= i < s.len(),
    ensures
        views_size(s) >= view_size(s[i]),
        view_size(s[i]) >= 1,
    decreases s.len(),
{
    if i > 0 {
        lemma_views_size_elem(s.drop_first(), i - 1);
        assert(s.drop_first()[i - 1] == s[i]);
    }
}

/// The creation calls a walk of `nodes` issues under path context `path`,
/// in order, or `None` when group expansion nests more than `fuel` deep.
///
/// For each node in order: a leaf whose name is a group key expands to
/// that group's nodes at the same path (one fuel unit deeper); any other
/// leaf is one creation call; an interior node is a creation call for its
/// name followed by the calls for its children under the extended path.
pub open spec fn walk(
    groups: Map<Seq<char>, Seq<FolderView>>,
    path: Seq<Seq<char>>,
    nodes: Seq<FolderView>,
    fuel: nat,
) -> Option<Seq<Seq<char>>>
    decreases fuel, nodes,
{
    if nodes.len() == 0 {
        Some(Seq::empty())
    } else {
        let rest = nodes.drop_first();
        match nodes[0] {
            FolderView::Final(name) => {
                if groups.contains_key(name) {
                    if fuel == 0 {
                        None
                    } else {
                        match walk(groups, path, groups[name], (fuel - 1) as nat) {
                            None => None,
                            Some(p) => match walk(groups, path, rest, fuel) {
                                None => None,
                                Some(q) => Some(p + q),
                            },
                        }
                    }
                } else {
                    match walk(groups, path, rest, fuel) {
                        None => None,
                        Some(q) => Some(seq![render(path, name)] + q),
                    }
                }
            },
            FolderView::TopLevel(name, children) => {
                match walk(groups, path.push(name), children, fuel) {
                    None => None,
                    Some(p) => match walk(groups, path, rest, fuel) {
                        None => None,
                        Some(q) => Some(seq![render(path, name)] + p + q),
                    },
                }
            },
        }
    }
}

/// The creation calls a walk of `nodes` issues before it stops: all of
/// them when the walk completes, and exactly those up to the expansion
/// that runs out of fuel when it does not.  Nodes after the failing one
/// are never reached.
pub open spec fn walk_partial(
    groups: Map<Seq<char>, Seq<FolderView>>,
    path: Seq<Seq<char>>,
    nodes: Seq<FolderView>,
    fuel: nat,
) -> Seq<Seq<char>>
    decreases fuel, nodes,
{
    if nodes.len() == 0 {
        Seq::empty()
    } else {
        let rest = nodes.drop_first();
        match nodes[0] {
            FolderView::Final(name) => {
                if groups.contains_key(name) {
                    if fuel == 0 {
                        Seq::empty()
                    } else {
                        let p = walk_partial(groups, path, groups[name], (fuel - 1) as nat);
                        if walk(groups, path, groups[name], (fuel - 1) as nat) is Some {
                            p + walk_partial(groups, path, rest, fuel)
                        } else {
                            p
                        }
                    }
                } else {
                    seq![render(path, name)] + walk_partial(groups, path, rest, fuel)
                }
            },
            FolderView::TopLevel(name, children) => {
                let p = seq![render(path, name)] + walk_partial(
                    groups,
                    path.push(name),
                    children,
                    fuel,
                );
                if walk(groups, path.push(name), children, fuel) is Some {
                    p + walk_partial(groups, path, rest, fuel)
                } else {
                    p
                }
            },
        }
    }
}

/// A walk that completes issues exactly its partial trace: the two
/// notions agree wherever fuel suffices.
pub proof fn lemma_walk_partial_complete(
    groups: Map<Seq<char>, Seq<FolderView>>,
    path: Seq<Seq<char>>,
    nodes: Seq<FolderView>,
    fuel: nat,
)
    requires
        walk(groups, path, nodes, fuel) is Some,
    ensures
        walk_partial(groups, path, nodes, fuel) == walk(groups, path, nodes, fuel)->Some_0,
    decreases fuel, nodes,
{
    if nodes.len() > 0 {
        let rest = nodes.drop_first();
        match nodes[0] {
            FolderView::Final(name) => {
                if groups.contains_key(name) {
                    lemma_walk_partial_complete(groups, path, groups[name], (fuel - 1) as nat);
                    lemma_walk_partial_complete(groups, path, rest, fuel);
                } else {
                    lemma_walk_partial_complete(groups, path, rest, fuel);
                }
            },
            FolderView::TopLevel(name, children) => {
                lemma_walk_partial_complete(groups, path.push(name), children, fuel);
                lemma_walk_partial_complete(groups, path, rest, fuel);
            },
        }
    }
}

/// The partial trace of a concatenation: the first part's trace, and the
/// second part's only where the first part's walk completed.
pub proof fn lemma_walk_partial_append(
    groups: Map<Seq<char>, Seq<FolderView>>,
    path: Seq<Seq<char>>,
    a: Seq<FolderView>,
    b: Seq<FolderView>,
    fuel: nat,
)
    ensures
        walk_partial(groups, path, a + b, fuel) == if walk(groups, path, a, fuel) is Some {
            walk_partial(groups, path, a, fuel) + walk_partial(groups, path, b, fuel)
        } else {
            walk_partial(groups, path, a, fuel)
        },
    decreases fuel, a,
{
    lemma_walk_append(groups, path, a, b, fuel);
    if a.len() == 0 {
        assert(a + b =~= b);
        assert(Seq::<Seq<char>>::empty() + walk_partial(groups, path, b, fuel) =~= walk_partial(
            groups,
            path,
            b,
            fuel,
        ));
    } else {
        let ab = a + b;
        assert(ab[0] == a[0]);
        assert(ab.drop_first() =~= a.drop_first() + b);
        lemma_walk_partial_append(groups, path, a.drop_first(), b, fuel);
        let pb = walk_partial(groups, path, b, fuel);
        match a[0] {
            FolderView::Final(name) => {
                if groups.contains_key(name) && fuel > 0 {
                    if walk(groups, path, groups[name], (fuel - 1) as nat) is Some {
                        let p = walk_partial(groups, path, groups[name], (fuel - 1) as nat);
                        let q = walk_partial(groups, path, a.drop_first(), fuel);
                        if walk(groups, path, a.drop_first(), fuel) is Some {
                            assert(p + (q + pb) =~= (p + q) + pb);
                        }
                    }
                }
                if !groups.contains_key(name) {
                    let q = walk_partial(groups, path, a.drop_first(), fuel);
                    if walk(groups, path, a.drop_first(), fuel) is Some {
                        assert(seq![render(path, name)] + (q + pb) =~= (seq![
                            render(path, name),
                        ] + q) + pb);
                    }
                }
            },
            FolderView::TopLevel(name, children) => {
                if walk(groups, path.push(name), children, fuel) is Some {
                    let p = seq![render(path, name)] + walk_partial(
                        groups,
                        path.push(name),
                        children,
                        fuel,
                    );
                    let q = walk_partial(groups, path, a.drop_first(), fuel);
                    if walk(groups, path, a.drop_first(), fuel) is Some {
                        assert(p + (q + pb) =~= (p + q) + pb);
                    }
                }
            },
        }
    }
}

/// Walking a concatenation walks the first part, then the second; a
/// failure in the first part fails the whole walk before the second is
/// reached.
pub proof fn lemma_walk_append(
    groups: Map<Seq<char>, Seq<FolderView>>,
    path: Seq<Seq<char>>,
    a: Seq<FolderView>,
    b: Seq<FolderView>,
    fuel: nat,
)
    ensures
        walk(groups, path, a + b, fuel) == match walk(groups, path, a, fuel) {
            None => None::<Seq<Seq<char>>>,
            Some(p) => match walk(groups, path, b, fuel) {
                None => None::<Seq<Seq<char>>>,
                Some(q) => Some(p + q),
            },
        },
    decreases fuel, a,
{
    if a.len() == 0 {
        assert(a + b =~= b);
        if walk(groups, path, b, fuel) is Some {
            assert(Seq::empty() + walk(groups, path, b, fuel)->Some_0 =~= walk(
                groups,
                path,
                b,
                fuel,
            )->Some_0);
        }
    } else {
        let ab = a + b;
        assert(ab[0] == a[0]);
        assert(ab.drop_first() =~= a.drop_first() + b);
        lemma_walk_append(groups, path, a.drop_first(), b, fuel);
        match a[0] {
            FolderView::Final(name) => {
                if groups.contains_key(name) && fuel > 0 {
                    match walk(groups, path, groups[name], (fuel - 1) as nat) {
                        Some(p) => {
                            match walk(groups, path, a.drop_first(), fuel) {
                                Some(q) => {
                                    if walk(groups, path, b, fuel) is Some {
                                        let r = walk(groups, path, b, fuel)->Some_0;
                                        assert(p + (q + r) =~= (p + q) + r);
                                    }
                                },
                                None => {},
                            }
                        },
                        None => {},
                    }
                }
                if !groups.contains_key(name) {
                    match walk(groups, path, a.drop_first(), fuel) {
                        Some(q) => {
                            if walk(groups, path, b, fuel) is Some {
                                let r = walk(groups, path, b, fuel)->Some_0;
                                assert(seq![render(path, name)] + (q + r) =~= (seq![
                                    render(path, name),
                                ] + q) + r);
                            }
                        },
                        None => {},
                    }
                }
            },
            FolderView::TopLevel(name, children) => {
                match walk(groups, path.push(name), children, fuel) {
                    Some(p) => {
                        match walk(groups, path, a.drop_first(), fuel) {
                            Some(q) => {
                                if walk(groups, path, b, fuel) is Some {
                                    let r = walk(groups, path, b, fuel)->Some_0;
                                    assert(seq![render(path, name)] + p + (q + r) =~= (seq![
                                        render(path, name),
                                    ] + p + q) + r);
                                }
                            },
                            None => {},
                        }
                    },
                    None => {},
                }
            },
        }
    }
}

/// Handles the folder-creation process: the path-context stack, a borrow
/// of the group table, and the plan of creation calls issued so far.
pub struct FolderEngine<'a> {
    /// The current sub-folder path, from the destination root down.
    pub current: Vec<String>,
    /// The directory-creation calls issued so far, in order.
    pub plan: Vec<String>,
    /// The named folder groups.
    pub groups: &'a GroupTable,
}

impl<'a> FolderEngine<'a> {
    /// Constructs a new engine over a group table, with an empty path
    /// context and an empty plan.
    pub fn new(groups: &'a GroupTable) -> (e: FolderEngine<'a>)
        ensures
            e.groups == groups,
            e.current@.len() == 0,
            e.plan@.len() == 0,
    {
        FolderEngine { current: Vec::new(), plan: Vec::new(), groups }
    }

    /// Records the creation call for a single directory named `name`
    /// under the current path context.
    fn create_dir(&mut self, name: &String)
        ensures
            final(self).groups == old(self).groups,
            final(self).current == old(self).current,
            seq_views(final(self).plan@) == seq_views(old(self).plan@).push(
                render(seq_views(old(self).current@), name@),
            ),
    {
        let mut s = String::from_str("./");
        let mut i: usize = 0;
        while i < self.current.len()
            invariant
                i <= self.current.len(),
                *self == *old(self),
                s@ == path_prefix(seq_views(self.current@).take(i as int)),
            decreases self.current.len() - i,
        {
            s.append(self.current[i].as_str());
            s.append("/");
            proof {
                let views = seq_views(self.current@);
                assert(views.take(i as int + 1).drop_last() =~= views.take(i as int));
                assert(views.take(i as int + 1).last() == self.current@[i as int]@);
            }
            i += 1;
        }
        proof {
            assert(seq_views(self.current@).take(self.current@.len() as int) =~= seq_views(
                self.current@,
            ));
        }
        s.append(name.as_str());
        self.plan.push(s);
        proof {
            assert(seq_views(self.plan@) =~= seq_views(old(self).plan@).push(
                render(seq_views(old(self).current@), name@),
            ));
        }
    }

    /// Handles a single folder with no declared children: a name matching
    /// a group expands that group at the current depth, any other name is
    /// one literal creation call.
    pub fn handle_name(&mut self, name: &String, fuel: usize) -> (r: Result<(), ConfigError>)
        requires
            old(self).groups.wf(),
        ensures
            final(self).groups == old(self).groups,
            final(self).current@ == old(self).current@,
            seq_views(old(self).plan@).is_prefix_of(seq_views(final(self).plan@)),
            match walk(
                old(self).groups@,
                seq_views(old(self).current@),
                seq![FolderView::Final(name@)],
                fuel as nat,
            ) {
                Some(p) => r is Ok && seq_views(final(self).plan@) == seq_views(
                    old(self).plan@,
                ) + p,
                None => r matches Err(e) && e@ == ConfigErrorView::GroupCycle,
            },
            walk(
                old(self).groups@,
                seq_views(old(self).current@),
                seq![FolderView::Final(name@)],
                fuel as nat,
            ) is None ==> seq_views(final(self).plan@) == seq_views(old(self).plan@)
                + walk_partial(
                old(self).groups@,
                seq_views(old(self).current@),
                seq![FolderView::Final(name@)],
                fuel as nat,
            ),
        decreases fuel, 0nat, 0nat,
    {
        let ghost nodes: Seq<FolderView> = seq![FolderView::Final(name@)];
        proof {
            assert(nodes.drop_first() =~= Seq::<FolderView>::empty());
        }
        let groups = self.groups;
        match groups.get(name) {
            Some(group) => {
                if fuel == 0 {
                    proof {
                        reveal_with_fuel(walk, 2);
                        reveal_with_fuel(walk_partial, 2);
                        assert(seq_views(self.plan@).is_prefix_of(seq_views(self.plan@)));
                        assert(seq_views(self.plan@) + Seq::<Seq<char>>::empty() =~= seq_views(
                            self.plan@,
                        ));
                    }
                    Err(ConfigError::GroupCycle)
                } else {
                    let r = self.create_folders_fueled(group, fuel - 1);
                    proof {
                        reveal_with_fuel(walk, 3);
                        reveal_with_fuel(walk_partial, 3);
                        let g = old(self).groups@;
                        let path = seq_views(old(self).current@);
                        match walk(g, path, g[name@], (fuel - 1) as nat) {
                            Some(p) => {
                                assert(p + Seq::<Seq<char>>::empty() =~= p);
                            },
                            None => {},
                        }
                    }
                    r
                }
            },
            None => {
                self.create_dir(name);
                proof {
                    reveal_with_fuel(walk, 3);
                    let path = seq_views(old(self).current@);
                    assert(seq![render(path, name@)] + Seq::<Seq<char>>::empty() =~= seq![
                        render(path, name@),
                    ]);
                    assert(seq_views(final(self).plan@) =~= seq_views(old(self).plan@) + seq![
                        render(path, name@),
                    ]);
                    assert(seq_views(old(self).plan@).is_prefix_of(seq_views(final(self).plan@)));
                }
                Ok(())
            },
        }
    }

    /// Recursively creates a folder that has declared children: one
    /// creation call for the name, then the children one level deeper.
    /// The path context is extended for the children and restored on every
    /// exit, error included.
    pub fn handle_named_folder(
        &mut self,
        name: &String,
        children: &Vec<Folder>,
        fuel: usize,
    ) -> (r: Result<(), ConfigError>)
        requires
            old(self).groups.wf(),
        ensures
            final(self).groups == old(self).groups,
            final(self).current@ == old(self).current@,
            seq_views(old(self).plan@).is_prefix_of(seq_views(final(self).plan@)),
            match walk(
                old(self).groups@,
                seq_views(old(self).current@),
                seq![FolderView::TopLevel(name@, fviews(children@))],
                fuel as nat,
            ) {
                Some(p) => r is Ok && seq_views(final(self).plan@) == seq_views(
                    old(self).plan@,
                ) + p,
                None => r matches Err(e) && e@ == ConfigErrorView::GroupCycle,
            },
            walk(
                old(self).groups@,
                seq_views(old(self).current@),
                seq![FolderView::TopLevel(name@, fviews(children@))],
                fuel as nat,
            ) is None ==> seq_views(final(self).plan@) == seq_views(old(self).plan@)
                + walk_partial(
                old(self).groups@,
                seq_views(old(self).current@),
                seq![FolderView::TopLevel(name@, fviews(children@))],
                fuel as nat,
            ),
        decreases fuel, views_size(fviews(children@)), 2nat,
    {
        let ghost g = old(self).groups@;
        let ghost path = seq_views(old(self).current@);
        let ghost nodes: Seq<FolderView> = seq![FolderView::TopLevel(name@, fviews(children@))];
        proof {
            assert(nodes.drop_first() =~= Seq::<FolderView>::empty());
        }
        self.create_dir(name);
        self.current.push(name.clone());
        proof {
            assert(seq_views(self.current@) =~= path.push(name@));
        }
        let r = self.create_folders_fueled(children, fuel);
        let _popped = self.current.pop();
        proof {
            assert(self.current@ =~= old(self).current@);
        }
        match r {
            Ok(_) => {
                proof {
                    reveal_with_fuel(walk, 3);
                    let p = walk(g, path.push(name@), fviews(children@), fuel as nat)->Some_0;
                    assert(seq_views(final(self).plan@) =~= (seq_views(old(self).plan@).push(
                        render(path, name@),
                    )) + p);
                    assert((seq_views(old(self).plan@).push(render(path, name@))) + p =~= seq_views(
                        old(self).plan@,
                    ) + (seq![render(path, name@)] + p));
                    assert(seq![render(path, name@)] + p + Seq::<Seq<char>>::empty() =~= seq![
                        render(path, name@),
                    ] + p);
                    assert(seq_views(old(self).plan@).is_prefix_of(seq_views(final(self).plan@)));
                }
                Ok(())
            },
            Err(e) => {
                proof {
                    reveal_with_fuel(walk, 3);
                    reveal_with_fuel(walk_partial, 3);
                    let pp = walk_partial(g, path.push(name@), fviews(children@), fuel as nat);
                    assert((seq_views(old(self).plan@).push(render(path, name@))) + pp =~= seq_views(
                        old(self).plan@,
                    ) + (seq![render(path, name@)] + pp));
                    assert(seq_views(old(self).plan@).is_prefix_of(seq_views(final(self).plan@)));
                }
                Err(e)
            },
        }
    }

    /// Walks a sequence of folder nodes in order, recording the creation
    /// calls each one issues.  Stops at the first node whose group
    /// expansion runs out of fuel and reports the cycle.
    pub fn create_folders_fueled(&mut self, folders: &Vec<Folder>, fuel: usize) -> (r: Result<
        (),
        ConfigError,
    >)
        requires
            old(self).groups.wf(),
        ensures
            final(self).groups == old(self).groups,
            final(self).current@ == old(self).current@,
            seq_views(old(self).plan@).is_prefix_of(seq_views(final(self).plan@)),
            match walk(
                old(self).groups@,
                seq_views(old(self).current@),
                fviews(folders@),
                fuel as nat,
            ) {
                Some(p) => r is Ok && seq_views(final(self).plan@) == seq_views(
                    old(self).plan@,
                ) + p,
                None => r matches Err(e) && e@ == ConfigErrorView::GroupCycle,
            },
            walk(
                old(self).groups@,
                seq_views(old(self).current@),
                fviews(folders@),
                fuel as nat,
            ) is None ==> seq_views(final(self).plan@) == seq_views(old(self).plan@)
                + walk_partial(
                old(self).groups@,
                seq_views(old(self).current@),
                fviews(folders@),
                fuel as nat,
            ),
        decreases fuel, views_size(fviews(folders@)), 1nat,
    {
        let ghost g = old(self).groups@;
        let ghost path = seq_views(old(self).current@);
        let ghost views = fviews(folders@);
        proof {
            lemma_fviews_index(folders@);
        }
        let mut i: usize = 0;
        while i < folders.len()
            invariant
                i <= folders.len(),
                self.groups == old(self).groups,
                self.groups.wf(),
                self.current@ == old(self).current@,
                g == old(self).groups@,
                path == seq_views(old(self).current@),
                views == fviews(folders@),
                views.len() == folders@.len(),
                forall|j: int| 0 <= j < folders@.len() ==> views[j] == fview(folders@[j]),
                walk(g, path, views.take(i as int), fuel as nat) matches Some(p) && seq_views(
                    self.plan@,
                ) == seq_views(old(self).plan@) + p,
            decreases folders.len() - i,
        {
            proof {
                assert(views.take(i as int + 1) =~= views.take(i as int) + seq![views[i as int]]);
                lemma_walk_append(g, path, views.take(i as int), seq![views[i as int]], fuel as nat);
                lemma_views_size_elem(views, i as int);
            }
            let ghost plan_before = seq_views(self.plan@);
            let r;
            match &folders[i] {
                Folder::Final(name) => {
                    r = self.handle_name(name, fuel);
                },
                Folder::TopLevel(name, children) => {
                    r = self.handle_named_folder(name, children, fuel);
                },
            }
            match r {
                Ok(_) => {
                    proof {
                        let p0 = walk(g, path, views.take(i as int), fuel as nat)->Some_0;
                        let p1 = walk(g, path, seq![views[i as int]], fuel as nat)->Some_0;
                        assert((seq_views(old(self).plan@) + p0) + p1 =~= seq_views(
                            old(self).plan@,
                        ) + (p0 + p1));
                    }
                },
                Err(e) => {
                    proof {
                        assert(walk(g, path, views.take(i as int + 1), fuel as nat) is None);
                        assert(views =~= views.take(i as int + 1) + views.skip(i as int + 1));
                        lemma_walk_append(
                            g,
                            path,
                            views.take(i as int + 1),
                            views.skip(i as int + 1),
                            fuel as nat,
                        );
                        assert(walk(g, path, views, fuel as nat) is None);
                        lemma_walk_partial_append(
                            g,
                            path,
                            views.take(i as int),
                            seq![views[i as int]],
                            fuel as nat,
                        );
                        lemma_walk_partial_append(
                            g,
                            path,
                            views.take(i as int + 1),
                            views.skip(i as int + 1),
                            fuel as nat,
                        );
                        lemma_walk_partial_complete(g, path, views.take(i as int), fuel as nat);
                        let p0 = walk(g, path, views.take(i as int), fuel as nat)->Some_0;
                        let ps = walk_partial(g, path, seq![views[i as int]], fuel as nat);
                        assert((seq_views(old(self).plan@) + p0) + ps =~= seq_views(
                            old(self).plan@,
                        ) + (p0 + ps));
                        assert(seq_views(old(self).plan@).is_prefix_of(seq_views(self.plan@)));
                    }
                    return Err(e);
                },
            }
            i += 1;
        }
        proof {
            assert(views.take(folders@.len() as int) =~= views);
            assert(seq_views(old(self).plan@).is_prefix_of(seq_views(self.plan@)));
        }
        Ok(())
    }

    /// Main entry of the folder-creation process: walks `folders` with one
    /// unit of expansion fuel per group, which an acyclic group table can
    /// never exhaust.
    pub fn create_folders(&mut self, folders: &Vec<Folder>) -> (r: Result<(), ConfigError>)
        requires
            old(self).groups.wf(),
        ensures
            final(self).groups == old(self).groups,
            final(self).current@ == old(self).current@,
            seq_views(old(self).plan@).is_prefix_of(seq_views(final(self).plan@)),
            match walk(
                old(self).groups@,
                seq_views(old(self).current@),
                fviews(folders@),
                old(self).groups@.dom().len(),
            ) {
                Some(p) => r is Ok && seq_views(final(self).plan@) == seq_views(
                    old(self).plan@,
                ) + p,
                None => r matches Err(e) && e@ == ConfigErrorView::GroupCycle,
            },
            walk(
                old(self).groups@,
                seq_views(old(self).current@),
                fviews(folders@),
                old(self).groups@.dom().len(),
            ) is None ==> seq_views(final(self).plan@) == seq_views(old(self).plan@)
                + walk_partial(
                old(self).groups@,
                seq_views(old(self).current@),
                fviews(folders@),
                old(self).groups@.dom().len(),
            ),
    {
        let groups = self.groups;
        let fuel = groups.len();
        self.create_folders_fueled(folders, fuel)
    }
}

/// A walk that completes within some fuel completes identically with any
/// larger fuel: fuel only cuts cyclic expansions off, it never changes the
/// calls of a walk that finishes.
pub proof fn lemma_walk_fuel_mono(
    groups: Map<Seq<char>, Seq<FolderView>>,
    path: Seq<Seq<char>>,
    nodes: Seq<FolderView>,
    f1: nat,
    f2: nat,
)
    requires
        f1 <= f2,
        walk(groups, path, nodes, f1) is Some,
    ensures
        walk(groups, path, nodes, f2) == walk(groups, path, nodes, f1),
    decreases f1, nodes,
{
    if nodes.len() > 0 {
        let rest = nodes.drop_first();
        match nodes[0] {
            FolderView::Final(name) => {
                if groups.contains_key(name) {
                    lemma_walk_fuel_mono(
                        groups,
                        path,
                        groups[name],
                        (f1 - 1) as nat,
                        (f2 - 1) as nat,
                    );
                    lemma_walk_fuel_mono(groups, path, rest, f1, f2);
                } else {
                    lemma_walk_fuel_mono(groups, path, rest, f1, f2);
                }
            },
            FolderView::TopLevel(name, children) => {
                lemma_walk_fuel_mono(groups, path.push(name), children, f1, f2);
                lemma_walk_fuel_mono(groups, path, rest, f1, f2);
            },
        }
    }
}

/// Materializing a single leaf whose name matches no group issues exactly
/// one creation call: the leaf's name under the current path context.
pub proof fn lemma_leaf_literal(
    groups: Map<Seq<char>, Seq<FolderView>>,
    path: Seq<Seq<char>>,
    name: Seq<char>,
    fuel: nat,
)
    requires
        !groups.contains_key(name),
    ensures
        walk(groups, path, seq![FolderView::Final(name)], fuel) == Some(seq![render(path, name)]),
{
    reveal_with_fuel(walk, 3);
    let nodes = seq![FolderView::Final(name)];
    assert(nodes.drop_first() =~= Seq::<FolderView>::empty());
    assert(seq![render(path, name)] + Seq::<Seq<char>>::empty() =~= seq![render(path, name)]);
}

/// The creation call for an interior node's own name comes strictly
/// before every call that originates from its children: the node's calls
/// are its own path first, then exactly the children's calls one level
/// deeper.
pub proof fn lemma_parent_before_children(
    groups: Map<Seq<char>, Seq<FolderView>>,
    path: Seq<Seq<char>>,
    name: Seq<char>,
    children: Seq<FolderView>,
    fuel: nat,
)
    requires
        walk(groups, path, seq![FolderView::TopLevel(name, children)], fuel) is Some,
    ensures
        walk(groups, path.push(name), children, fuel) is Some,
        walk(groups, path, seq![FolderView::TopLevel(name, children)], fuel)->Some_0 == seq![
            render(path, name),
        ] + walk(groups, path.push(name), children, fuel)->Some_0,
{
    reveal_with_fuel(walk, 3);
    let nodes = seq![FolderView::TopLevel(name, children)];
    assert(nodes.drop_first() =~= Seq::<FolderView>::empty());
    match walk(groups, path.push(name), children, fuel) {
        Some(p) => {
            assert(seq![render(path, name)] + p + Seq::<Seq<char>>::empty() =~= seq![
                render(path, name),
            ] + p);
        },
        None => {},
    }
}

/// Group expansion is transparent to path depth: a leaf whose name is a
/// group key produces exactly the creation calls of the group's own node
/// list at the same path context, whenever its walk completes; the
/// reference itself adds no path segment.
pub proof fn lemma_group_expansion_transparent(
    groups: Map<Seq<char>, Seq<FolderView>>,
    path: Seq<Seq<char>>,
    name: Seq<char>,
    fuel: nat,
)
    requires
        groups.contains_key(name),
        walk(groups, path, seq![FolderView::Final(name)], fuel) is Some,
    ensures
        fuel >= 1,
        walk(groups, path, seq![FolderView::Final(name)], fuel) == walk(
            groups,
            path,
            groups[name],
            fuel,
        ),
{
    reveal_with_fuel(walk, 3);
    let nodes = seq![FolderView::Final(name)];
    assert(nodes.drop_first() =~= Seq::<FolderView>::empty());
    match walk(groups, path, groups[name], (fuel - 1) as nat) {
        Some(p) => {
            assert(p + Seq::<Seq<char>>::empty() =~= p);
            lemma_walk_fuel_mono(groups, path, groups[name], (fuel - 1) as nat, fuel);
        },
        None => {},
    }
}

} // verus!
