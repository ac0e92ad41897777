//! The state of the tool.

use crate::project::Project;
use crate::project::ProjectView;
use vstd::prelude::*;

verus! {

/// What the tool is doing.
#[derive(Clone, Copy, Debug, PartialEq, Eq, Structural)]
pub enum AppPhase {
    /// Looking for projects.
    Scanning,
    /// Showing the list.
    Selecting,
    /// Asking whether the chosen projects are to be cleaned.
    Confirming,
    /// Deleting: `current` of `total` items are done.
    Deleting { current: usize, total: usize },
    /// Showing how many bytes were freed.
    Done { freed: u64 },
}

/// The state of the tool.
pub struct App<P> {
    /// What was found.
    pub projects: Vec<Project<P>>,
    /// Whether the scan is over.
    pub scanning_done: bool,
    /// How many directories were looked at.
    pub dirs_scanned: u64,
    /// The row of the list that the cursor is on.
    pub row: Option<usize>,
    pub phase: AppPhase,
}

/// The state of the tool as a value.
pub struct AppView<P> {
    pub projects: Seq<ProjectView<P>>,
    pub scanning_done: bool,
    pub dirs_scanned: u64,
    pub row: Option<usize>,
    pub phase: AppPhase,
}

impl<P> View for App<P> {
    type V = AppView<P>;

    open spec fn view(&self) -> AppView<P> {
        AppView {
            projects: self.projects.deep_view(),
            scanning_done: self.scanning_done,
            dirs_scanned: self.dirs_scanned,
            row: self.row,
            phase: self.phase,
        }
    }
}

/// The projects that are chosen for cleaning.
pub open spec fn chosen<P>(projects: Seq<ProjectView<P>>) -> Seq<ProjectView<P>> {
    projects.filter(|p: ProjectView<P>| p.selected)
}

/// The sizes of projects, added up.
pub open spec fn total_of<P>(projects: Seq<ProjectView<P>>) -> nat
    decreases projects.len(),
{
    if projects.len() == 0 {
        0
    } else {
        total_of(projects.drop_last()) + projects.last().size as nat
    }
}

/// Whether no project is larger than one before it.
pub open spec fn largest_first<P>(projects: Seq<ProjectView<P>>) -> bool {
    forall|i: int, j: int|
        0 <= i <= j < projects.len() ==> (#[trigger] projects[i]).size >= (
        #[trigger] projects[j]).size
}

/// The projects of one size, in their order.
pub open spec fn of_size<P>(projects: Seq<ProjectView<P>>, size: u64) -> Seq<ProjectView<P>> {
    projects.filter(|p: ProjectView<P>| p.size == size)
}

/// Whether `after` holds the projects of `before`, the largest first, and those of one size in
/// the order that they had.
pub open spec fn sorted_by_size<P>(
    before: Seq<ProjectView<P>>,
    after: Seq<ProjectView<P>>,
) -> bool {
    &&& largest_first(after)
    &&& after.to_multiset() == before.to_multiset()
    &&& forall|size: u64| #[trigger] of_size(after, size) == of_size(before, size)
}

/// A project, chosen or not.
pub open spec fn with_selected<P>(p: ProjectView<P>, selected: bool) -> ProjectView<P> {
    ProjectView { selected, ..p }
}

impl<P> AppView<P> {
    /// What holds of the state at all times: the sizes can be added up, the list is sorted once
    /// the scan is over, and nobody is asked to confirm cleaning nothing.
    pub open spec fn valid(self) -> bool {
        &&& total_of(self.projects) <= u64::MAX
        &&& !(self.phase is Scanning) ==> self.scanning_done && largest_first(self.projects)
        &&& self.phase is Confirming ==> chosen(self.projects).len() > 0
    }
}

proof fn lemma_total_push<P>(s: Seq<ProjectView<P>>, p: ProjectView<P>)
    ensures
        total_of(s.push(p)) == total_of(s) + p.size,
{
    assert(s.push(p).drop_last() =~= s);
}

proof fn lemma_total_add<P>(a: Seq<ProjectView<P>>, b: Seq<ProjectView<P>>)
    ensures
        total_of(a + b) == total_of(a) + total_of(b),
    decreases b.len(),
{
    if b.len() == 0 {
        assert(a + b =~= a);
    } else {
        lemma_total_add(a, b.drop_last());
        assert((a + b).drop_last() =~= a + b.drop_last());
    }
}

proof fn lemma_total_take<P>(s: Seq<ProjectView<P>>, i: int)
    requires
        0 <= i <= s.len(),
    ensures
        total_of(s.take(i)) <= total_of(s),
{
    assert(s.take(i) + s.skip(i) =~= s);
    lemma_total_add(s.take(i), s.skip(i));
}

proof fn lemma_total_filter<P>(s: Seq<ProjectView<P>>, pred: spec_fn(ProjectView<P>) -> bool)
    ensures
        total_of(s.filter(pred)) <= total_of(s),
        s.filter(pred).len() <= s.len(),
    decreases s.len(),
{
    reveal(Seq::filter);
    if s.len() > 0 {
        let front = s.drop_last();
        lemma_total_filter(front, pred);
        if pred(s.last()) {
            lemma_total_push(front.filter(pred), s.last());
        }
    }
}

/// What is chosen is never more, nor larger, than what is listed.
pub proof fn chosen_within_listed<P>(projects: Seq<ProjectView<P>>)
    ensures
        chosen(projects).len() <= projects.len(),
        total_of(chosen(projects)) <= total_of(projects),
{
    lemma_total_filter(projects, |p: ProjectView<P>| p.selected);
}

proof fn lemma_chosen_take<P>(s: Seq<ProjectView<P>>, i: int)
    requires
        0 <= i < s.len(),
    ensures
        chosen(s.take(i + 1)) == if s[i].selected {
            chosen(s.take(i)).push(s[i])
        } else {
            chosen(s.take(i))
        },
{
    reveal(Seq::filter);
    assert(s.take(i + 1).drop_last() =~= s.take(i));
}

proof fn lemma_chosen_total_take<P>(s: Seq<ProjectView<P>>, i: int)
    requires
        0 <= i <= s.len(),
    ensures
        total_of(chosen(s.take(i))) <= total_of(chosen(s)),
    decreases s.len(),
{
    if i == s.len() {
        assert(s.take(i) =~= s);
    } else {
        let front = s.drop_last();
        lemma_chosen_total_take(front, i);
        assert(front.take(i) =~= s.take(i));
        lemma_chosen_take(s, s.len() - 1);
        assert(s.take(s.len() - 1) =~= front);
        assert(s.take(s.len() as int) =~= s);
        lemma_total_push(chosen(front), s.last());
    }
}

impl<P> App<P> {
    /// The state before the scan has found anything.
    pub fn new() -> (r: App<P>)
        ensures
            r@ == (AppView {
                projects: Seq::<ProjectView<P>>::empty(),
                scanning_done: false,
                dirs_scanned: 0,
                row: Some(0usize),
                phase: AppPhase::Scanning,
            }),
            r@.valid(),
    {
        let r = App {
            projects: Vec::new(),
            scanning_done: false,
            dirs_scanned: 0,
            row: Some(0),
            phase: AppPhase::Scanning,
        };
        assert(r@.projects =~= Seq::<ProjectView<P>>::empty());
        r
    }

    /// Counts a directory that was looked at.
    pub fn dir_scanned(&mut self)
        ensures
            final(self)@ == (AppView {
                dirs_scanned: if old(self)@.dirs_scanned == u64::MAX {
                    0
                } else {
                    (old(self)@.dirs_scanned + 1) as u64
                },
                ..old(self)@
            }),
    {
        self.dirs_scanned = self.dirs_scanned.wrapping_add(1);
    }

    /// Lists a project that the scan has found.
    pub fn add_project(&mut self, project: Project<P>)
        ensures
            final(self)@ == (AppView {
                projects: old(self)@.projects.push(project@),
                ..old(self)@
            }),
            old(self)@.valid() && old(self)@.phase is Scanning && total_of(old(self)@.projects)
                + project@.size <= u64::MAX ==> final(self)@.valid(),
    {
        let ghost before = self@.projects;
        proof {
            lemma_total_push(before, project@);
        }
        self.projects.push(project);
        assert(self@.projects =~= before.push(project@));
    }

    /// Whether the sizes of these projects can be added to those that are listed.
    pub fn has_room(&self, projects: &Vec<Project<P>>) -> (r: bool)
        requires
            total_of(self@.projects) <= u64::MAX,
        ensures
            r == (total_of(self@.projects) + total_of(projects.deep_view()) <= u64::MAX),
    {
        let ghost listed = total_of(self@.projects);
        let ghost all = projects.deep_view();
        let mut sum: u64 = self.total_size();
        let mut i: usize = 0;
        while i < projects.len()
            invariant
                i <= projects@.len(),
                all == projects.deep_view(),
                listed == total_of(self@.projects),
                sum == listed + total_of(all.take(i as int)),
            decreases projects@.len() - i,
        {
            proof {
                assert(all[i as int] == projects@[i as int]@);
                assert(all.take(i + 1).drop_last() =~= all.take(i as int));
                lemma_total_take(all, i + 1);
            }
            match sum.checked_add(projects[i].size) {
                Some(more) => {
                    sum = more;
                },
                None => {
                    return false;
                },
            }
            i += 1;
        }
        assert(all.take(i as int) =~= all);
        true
    }

    /// Lists projects that the scan has found, in their order.
    pub fn add_projects(&mut self, projects: Vec<Project<P>>)
        ensures
            final(self)@ == (AppView {
                projects: old(self)@.projects + projects.deep_view(),
                ..old(self)@
            }),
            old(self)@.valid() && old(self)@.phase is Scanning && total_of(old(self)@.projects)
                + total_of(projects.deep_view()) <= u64::MAX ==> final(self)@.valid(),
    {
        let ghost before = self@;
        let ghost given = projects@;
        let ghost more = projects.deep_view();
        assert(before.projects + more.take(0) =~= before.projects);
        for project in it: projects
            invariant
                it.seq() == given,
                more == given.map_values(|p: Project<P>| p@),
                self@ == (AppView {
                    projects: before.projects + more.take(it.index() as int),
                    ..before
                }),
        {
            let ghost i = it.index() as int;
            proof {
                assert(more[i] == project@);
                assert(before.projects + more.take(i + 1) =~= (before.projects + more.take(i)).push(
                    project@,
                ));
            }
            self.add_project(project);
        }
        proof {
            assert(more.take(more.len() as int) =~= more);
            lemma_total_add(before.projects, more);
        }
    }

    /// Notes that the scan is over.
    pub fn finish_scan(&mut self)
        ensures
            final(self)@ == (AppView { scanning_done: true, ..old(self)@ }),
            old(self)@.valid() ==> final(self)@.valid(),
    {
        self.scanning_done = true;
    }

    /// How many projects are listed.
    pub fn project_count(&self) -> (n: usize)
        ensures
            n == self@.projects.len(),
    {
        self.projects.len()
    }

    /// How many projects are chosen.
    pub fn selected_count(&self) -> (n: usize)
        ensures
            n == chosen(self@.projects).len(),
    {
        let mut n: usize = 0;
        let mut i: usize = 0;
        let ghost all = self@.projects;
        assert(chosen(all.take(0)).len() == 0) by {
            reveal(Seq::filter);
        }
        while i < self.projects.len()
            invariant
                i <= self.projects@.len(),
                all == self@.projects,
                n <= i,
                n == chosen(all.take(i as int)).len(),
            decreases self.projects@.len() - i,
        {
            proof {
                lemma_chosen_take(all, i as int);
                assert(all[i as int] == self.projects@[i as int]@);
            }
            if self.projects[i].selected {
                n += 1;
            }
            i += 1;
        }
        assert(all.take(i as int) =~= all);
        n
    }

    /// The size of all that is chosen.
    pub fn selected_size(&self) -> (n: u64)
        requires
            total_of(self@.projects) <= u64::MAX || total_of(chosen(self@.projects)) <= u64::MAX,
        ensures
            n == total_of(chosen(self@.projects)),
    {
        let mut n: u64 = 0;
        let mut i: usize = 0;
        let ghost all = self@.projects;
        proof {
            chosen_within_listed(all);
        }
        assert(chosen(all.take(0)).len() == 0) by {
            reveal(Seq::filter);
        }
        while i < self.projects.len()
            invariant
                i <= self.projects@.len(),
                all == self@.projects,
                total_of(chosen(all)) <= u64::MAX,
                n == total_of(chosen(all.take(i as int))),
            decreases self.projects@.len() - i,
        {
            proof {
                lemma_chosen_take(all, i as int);
                assert(all[i as int] == self.projects@[i as int]@);
                lemma_total_push(chosen(all.take(i as int)), all[i as int]);
                lemma_chosen_total_take(all, i + 1);
            }
            if self.projects[i].selected {
                n += self.projects[i].size;
            }
            i += 1;
        }
        assert(all.take(i as int) =~= all);
        n
    }

    /// The size of all that is listed.
    pub fn total_size(&self) -> (n: u64)
        requires
            total_of(self@.projects) <= u64::MAX,
        ensures
            n == total_of(self@.projects),
    {
        let mut n: u64 = 0;
        let mut i: usize = 0;
        let ghost all = self@.projects;
        while i < self.projects.len()
            invariant
                i <= self.projects@.len(),
                all == self@.projects,
                total_of(all) <= u64::MAX,
                n == total_of(all.take(i as int)),
            decreases self.projects@.len() - i,
        {
            proof {
                assert(all[i as int] == self.projects@[i as int]@);
                assert(all.take(i + 1).drop_last() =~= all.take(i as int));
                lemma_total_take(all, i + 1);
            }
            n += self.projects[i].size;
            i += 1;
        }
        assert(all.take(i as int) =~= all);
        n
    }
}

/// Sizes add up over the list, however it is divided, and each project counts with its own; the chosen
/// ones are chosen wherever they stand, in their order.
pub proof fn lists_add_up<P>(a: Seq<ProjectView<P>>, b: Seq<ProjectView<P>>, p: ProjectView<P>)
    ensures
        total_of(a + b) == total_of(a) + total_of(b),
        total_of(seq![p]) == p.size,
        chosen(a + b) == chosen(a) + chosen(b),
        chosen(seq![p]) == if p.selected {
            seq![p]
        } else {
            Seq::empty()
        },
{
    lemma_total_add(a, b);
    let none = Seq::<ProjectView<P>>::empty();
    assert(none.push(p) =~= seq![p]);
    lemma_total_push(none, p);
    assert(total_of(none) == 0);
    let pred = |q: ProjectView<P>| q.selected;
    Seq::filter_distributes_over_add(a, b, pred);
    lemma_chosen_take(seq![p], 0);
    assert(seq![p].take(1) =~= seq![p]);
    assert(seq![p].take(0) =~= none);
    reveal(Seq::filter);
    assert(chosen(none) =~= none);
    assert(none.push(p) =~= seq![p]);
}

/// Choosing a project, or not, changes nothing else about it.
pub proof fn choosing_changes_the_choice_only<P>(p: ProjectView<P>, selected: bool)
    ensures
        with_selected(p, selected).selected == selected,
        with_selected(p, selected).display_name == p.display_name,
        with_selected(p, selected).lang == p.lang,
        with_selected(p, selected).lang_color == p.lang_color,
        with_selected(p, selected).target == p.target,
        with_selected(p, selected).size == p.size,
{
}

/// Once the scan is over the list has the larger of two projects first. While the question is asked,
/// some project is chosen. The sizes can be added up at all times.
pub proof fn valid_lists_are_sorted<P>(a: AppView<P>, i: int, j: int)
    requires
        a.valid(),
        0 <= i <= j < a.projects.len(),
    ensures
        !(a.phase is Scanning) ==> a.scanning_done && a.projects[i].size >= a.projects[j].size,
        a.phase is Confirming ==> exists|k: int|
            0 <= k < a.projects.len() && (#[trigger] a.projects[k]).selected,
        total_of(a.projects) <= u64::MAX,
{
    if a.phase is Confirming {
        let pred = |q: ProjectView<P>| q.selected;
        let first = chosen(a.projects)[0];
        a.projects.lemma_filter_pred(pred, 0);
        assert(pred(first));
        assert(chosen(a.projects).contains(first));
        a.projects.lemma_filter_contains_rev(pred, first);
        let k = choose|k: int| 0 <= k < a.projects.len() && a.projects[k] == first;
        assert(a.projects[k].selected);
    }
}

} // verus!
