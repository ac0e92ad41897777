//! Cleaning the chosen projects: one item after the other is deleted, and then what is still
//! there stays in the list.

use crate::app::largest_first;
use crate::app::total_of;
use crate::app::with_selected;
use crate::app::App;
use crate::app::AppPhase;
use crate::app::AppView;
use crate::project::items_in;
use crate::project::CleanTarget;
use crate::project::Project;
use crate::project::ProjectView;
use crate::project::TargetView;
use crate::text::same_text;
use vstd::prelude::*;

verus! {

/// The items of the project at `i`: each is a pair of the project's place and the item's.
pub open spec fn items_of<P>(projects: Seq<ProjectView<P>>, i: int) -> Seq<(int, int)> {
    if projects[i].selected {
        Seq::new(items_in(projects[i].target), |j: int| (i, j))
    } else {
        Seq::empty()
    }
}

/// The items of the chosen ones among the first `n` projects, in the order of the list.
pub open spec fn items_before<P>(projects: Seq<ProjectView<P>>, n: int) -> Seq<(int, int)>
    decreases n,
{
    if n <= 0 {
        Seq::empty()
    } else {
        items_before(projects, n - 1) + items_of(projects, n - 1)
    }
}

/// All that is to be deleted, in the order of the list.
pub open spec fn work_of<P>(projects: Seq<ProjectView<P>>) -> Seq<(int, int)> {
    items_before(projects, projects.len() as int)
}

/// The size of the first listed image with this identifier; nought where there is none.
pub open spec fn image_size<P>(projects: Seq<ProjectView<P>>, id: Seq<char>) -> u64
    decreases projects.len(),
{
    if projects.len() == 0 {
        0
    } else if projects[0].target == (TargetView::<P>::DockerImage { id }) {
        projects[0].size
    } else {
        image_size(projects.skip(1), id)
    }
}

/// A single thing to delete.
pub enum CleanItem<'a, P> {
    /// A directory. How much it frees is measured before it is deleted.
    Directory(&'a P),
    /// A container image, with the size that it frees.
    Image { id: &'a str, size: u64 },
}

/// A single thing to delete, as a value.
pub enum ItemView<P> {
    Directory(P),
    Image { id: Seq<char>, size: u64 },
}

impl<'a, P> View for CleanItem<'a, P> {
    type V = ItemView<P>;

    open spec fn view(&self) -> ItemView<P> {
        match self {
            CleanItem::Directory(dir) => ItemView::Directory(**dir),
            CleanItem::Image { id, size } => ItemView::Image { id: id@, size: *size },
        }
    }
}

/// The thing to delete that a pair of places stands for.
pub open spec fn item_at<P>(projects: Seq<ProjectView<P>>, at: (int, int)) -> ItemView<P> {
    match projects[at.0].target {
        TargetView::Directories(dirs) => ItemView::Directory(dirs[at.1]),
        TargetView::DockerImage { id } => ItemView::Image { id, size: image_size(projects, id) },
    }
}

/// The arguments with which the container engine deletes an image.
pub fn removal_arguments(id: &str) -> (r: Vec<&str>)
    ensures
        r.deep_view() == seq!["rmi"@, id@],
{
    let r = vec!["rmi", id];
    assert(r.deep_view() =~= seq!["rmi"@, id@]);
    r
}

/// The arguments with which the container engine is asked whether it has an image: it succeeds
/// where it does.
pub fn presence_arguments(id: &str) -> (r: Vec<&str>)
    ensures
        r.deep_view() == seq!["inspect"@, "--type=image"@, id@],
{
    let r = vec!["inspect", "--type=image", id];
    assert(r.deep_view() =~= seq!["inspect"@, "--type=image"@, id@]);
    r
}

/// A deletion under way.
pub struct Cleanup {
    /// What is to be deleted: the place of each project, and of the item in it.
    pub work: Vec<(usize, usize)>,
    /// How many items are done.
    pub done: usize,
    /// How many bytes were freed.
    pub freed: u64,
}

impl Cleanup {
    /// What is to be deleted.
    pub open spec fn items(&self) -> Seq<(int, int)> {
        self.work@.map_values(|at: (usize, usize)| (at.0 as int, at.1 as int))
    }
}

/// Whether `run` is the deletion that the state is in.
pub open spec fn cleaning<P>(a: AppView<P>, run: Cleanup) -> bool {
    &&& run.items() == work_of(a.projects)
    &&& run.done <= run.work@.len()
    &&& a.phase == (AppPhase::Deleting { current: run.done, total: run.work@.len() as usize })
}

/// Whether `after` is the deletion `before` with one more item done, which took `size` bytes.
pub open spec fn removal_step(before: Cleanup, after: Cleanup, size: u64) -> bool {
    &&& after.work == before.work
    &&& after.done == before.done + 1
    &&& after.freed == before.freed + size
}

/// The sum of sizes.
pub open spec fn sum_of(sizes: Seq<u64>) -> nat
    decreases sizes.len(),
{
    if sizes.len() == 0 {
        0
    } else {
        sum_of(sizes.drop_last()) + sizes.last() as nat
    }
}

/// What a deletion says that it freed is the sum of the sizes of all items that it deleted.
pub proof fn freed_is_the_sum_of_the_deleted(runs: Seq<Cleanup>, sizes: Seq<u64>)
    requires
        runs.len() == sizes.len() + 1,
        runs[0].done == 0,
        runs[0].freed == 0,
        forall|i: int|
            0 <= i < sizes.len() ==> removal_step(#[trigger] runs[i], runs[i + 1], sizes[i]),
    ensures
        runs.last().freed == sum_of(sizes),
        runs.last().done == sizes.len(),
        runs.last().work == runs[0].work,
    decreases sizes.len(),
{
    if sizes.len() > 0 {
        freed_is_the_sum_of_the_deleted(runs.drop_last(), sizes.drop_last());
        let n = sizes.len() - 1;
        assert(removal_step(runs[n], runs[n + 1], sizes[n]));
    }
}

proof fn lemma_items_before<P>(projects: Seq<ProjectView<P>>, n: int, w: int)
    requires
        0 <= n <= projects.len(),
        0 <= w < items_before(projects, n).len(),
    ensures
        0 <= items_before(projects, n)[w].0 < n,
        projects[items_before(projects, n)[w].0].selected,
        0 <= items_before(projects, n)[w].1 < items_in(
            projects[items_before(projects, n)[w].0].target,
        ),
    decreases n,
{
    if n > 0 {
        if w < items_before(projects, n - 1).len() {
            lemma_items_before(projects, n - 1, w);
        }
    }
}

/// Everything that is deleted belongs to a chosen project.
pub proof fn only_chosen_items_are_deleted<P>(projects: Seq<ProjectView<P>>, w: int)
    requires
        0 <= w < work_of(projects).len(),
    ensures
        ({
            let at = work_of(projects)[w];
            &&& 0 <= at.0 < projects.len()
            &&& projects[at.0].selected
            &&& 0 <= at.1 < items_in(projects[at.0].target)
        }),
{
    lemma_items_before(projects, projects.len() as int, w);
}

/// Every item of every chosen project is deleted.
pub proof fn all_chosen_items_are_deleted<P>(projects: Seq<ProjectView<P>>, i: int, j: int)
    requires
        0 <= i < projects.len(),
        projects[i].selected,
        0 <= j < items_in(projects[i].target),
    ensures
        work_of(projects).contains((i, j)),
{
    lemma_item_before(projects, projects.len() as int, i, j);
}

proof fn lemma_item_before<P>(projects: Seq<ProjectView<P>>, n: int, i: int, j: int)
    requires
        0 <= i < n <= projects.len(),
        projects[i].selected,
        0 <= j < items_in(projects[i].target),
    ensures
        items_before(projects, n).contains((i, j)),
    decreases n,
{
    let front = items_before(projects, n - 1);
    if i == n - 1 {
        assert(items_of(projects, i)[j] == (i, j));
        assert(items_before(projects, n)[front.len() + j] == (i, j));
    } else {
        lemma_item_before(projects, n - 1, i, j);
        let k = choose|k: int| 0 <= k < front.len() && front[k] == (i, j);
        assert(items_before(projects, n)[k] == (i, j));
    }
}

/// Whether the project at `i` stays in the list: it was not chosen, or something of it is still
/// there.
pub open spec fn stays<P>(projects: Seq<ProjectView<P>>, present: Seq<bool>, i: int) -> bool {
    !projects[i].selected || exists|w: int|
        0 <= w < work_of(projects).len() && #[trigger] work_of(projects)[w].0 == i && present[w]
}

/// What is left of the first `n` projects.
pub open spec fn left_before<P>(
    projects: Seq<ProjectView<P>>,
    present: Seq<bool>,
    n: int,
) -> Seq<ProjectView<P>>
    decreases n,
{
    if n <= 0 {
        Seq::empty()
    } else if stays(projects, present, n - 1) {
        left_before(projects, present, n - 1).push(with_selected(projects[n - 1], false))
    } else {
        left_before(projects, present, n - 1)
    }
}

/// What is left in the list after the deletion: the projects that stay, in their order, and none
/// of them chosen.
pub open spec fn left_of<P>(
    projects: Seq<ProjectView<P>>,
    present: Seq<bool>,
) -> Seq<ProjectView<P>> {
    left_before(projects, present, projects.len() as int)
}

proof fn lemma_left_before<P>(projects: Seq<ProjectView<P>>, present: Seq<bool>, n: int)
    requires
        0 <= n <= projects.len(),
    ensures
        left_before(projects, present, n).len() <= n,
        total_of(left_before(projects, present, n)) <= total_of(projects.take(n)),
        forall|k: int|
            0 <= k < left_before(projects, present, n).len() ==> !(#[trigger] left_before(
                projects,
                present,
                n,
            )[k]).selected,
        largest_first(projects) ==> largest_first(left_before(projects, present, n)),
        largest_first(projects) ==> forall|k: int|
            0 <= k < left_before(projects, present, n).len() && 0 < n ==> (
            #[trigger] left_before(projects, present, n)[k]).size >= projects[n - 1].size,
    decreases n,
{
    if n > 0 {
        lemma_left_before(projects, present, n - 1);
        assert(projects.take(n).drop_last() =~= projects.take(n - 1));
        let front = left_before(projects, present, n - 1);
        let p = with_selected(projects[n - 1], false);
        assert(front.push(p).drop_last() =~= front);
        if largest_first(projects) && n > 1 {
            assert(projects[n - 2].size >= projects[n - 1].size);
        }
    }
}

/// After a deletion nothing is chosen, and the list is still sorted.
pub proof fn deletion_leaves_a_clear_list<P>(projects: Seq<ProjectView<P>>, present: Seq<bool>)
    ensures
        left_of(projects, present).len() <= projects.len(),
        total_of(left_of(projects, present)) <= total_of(projects),
        forall|k: int|
            0 <= k < left_of(projects, present).len() ==> !(#[trigger] left_of(
                projects,
                present,
            )[k]).selected,
        largest_first(projects) ==> largest_first(left_of(projects, present)),
{
    lemma_left_before(projects, present, projects.len() as int);
    assert(projects.take(projects.len() as int) =~= projects);
}

proof fn lemma_left_contains<P>(
    projects: Seq<ProjectView<P>>,
    present: Seq<bool>,
    n: int,
    i: int,
)
    requires
        0 <= i < n <= projects.len(),
        stays(projects, present, i),
    ensures
        left_before(projects, present, n).contains(with_selected(projects[i], false)),
    decreases n,
{
    let wanted = with_selected(projects[i], false);
    let all = left_before(projects, present, n);
    let front = left_before(projects, present, n - 1);
    if i == n - 1 {
        assert(all[all.len() - 1] == wanted);
    } else {
        lemma_left_contains(projects, present, n - 1, i);
        let k = choose|k: int| 0 <= k < front.len() && front[k] == wanted;
        assert(all[k] == wanted);
    }
}

/// A project that was not chosen is still listed after a deletion, as it was.
pub proof fn unchosen_projects_stay<P>(projects: Seq<ProjectView<P>>, present: Seq<bool>, i: int)
    requires
        0 <= i < projects.len(),
        !projects[i].selected,
    ensures
        left_of(projects, present).contains(projects[i]),
{
    lemma_left_contains(projects, present, projects.len() as int, i);
    assert(with_selected(projects[i], false) == projects[i]);
}

/// Where nothing that was to be deleted is left, just the projects that were not chosen remain.
pub proof fn cleaned_projects_leave<P>(projects: Seq<ProjectView<P>>, present: Seq<bool>)
    requires
        present.len() == work_of(projects).len(),
        forall|w: int| 0 <= w < present.len() ==> !(#[trigger] present[w]),
    ensures
        left_of(projects, present) == projects.filter(|p: ProjectView<P>| !p.selected),
{
    lemma_cleaned_before(projects, present, projects.len() as int);
    assert(projects.take(projects.len() as int) =~= projects);
}

proof fn lemma_cleaned_before<P>(projects: Seq<ProjectView<P>>, present: Seq<bool>, n: int)
    requires
        0 <= n <= projects.len(),
        present.len() == work_of(projects).len(),
        forall|w: int| 0 <= w < present.len() ==> !(#[trigger] present[w]),
    ensures
        left_before(projects, present, n) == projects.take(n).filter(
            |p: ProjectView<P>| !p.selected,
        ),
    decreases n,
{
    reveal(Seq::filter);
    if n > 0 {
        lemma_cleaned_before(projects, present, n - 1);
        assert(projects.take(n).drop_last() =~= projects.take(n - 1));
        if !projects[n - 1].selected {
            assert(with_selected(projects[n - 1], false) == projects[n - 1]);
        }
    } else {
        assert(projects.take(0) =~= Seq::<ProjectView<P>>::empty());
    }
}

impl<P> App<P> {
    /// Begins to delete what is chosen.
    pub fn delete_selected(&mut self) -> (run: Cleanup)
        ensures
            final(self)@ == old(self)@.in_phase(
                AppPhase::Deleting { current: 0, total: run.work@.len() as usize },
            ),
            cleaning(final(self)@, run),
            run.done == 0,
            run.freed == 0,
            old(self)@.valid() && !(old(self)@.phase is Scanning) ==> final(self)@.valid(),
    {
        let ghost all = self@.projects;
        let mut work: Vec<(usize, usize)> = Vec::new();
        let ghost pairs = |at: (usize, usize)| (at.0 as int, at.1 as int);
        let mut i: usize = 0;
        assert(work@.map_values(pairs) =~= Seq::<(int, int)>::empty());
        while i < self.projects.len()
            invariant
                i <= self.projects@.len(),
                self@ == old(self)@,
                all == self@.projects,
                pairs == (|at: (usize, usize)| (at.0 as int, at.1 as int)),
                work@.map_values(pairs) == items_before(all, i as int),
            decreases self.projects@.len() - i,
        {
            assert(all[i as int] == self.projects@[i as int]@);
            let ghost before = work@.map_values(pairs);
            if self.projects[i].selected {
                let n = self.projects[i].target.items();
                let mut j: usize = 0;
                assert(before + items_of(all, i as int).take(0) =~= before);
                while j < n
                    invariant
                        j <= n,
                        i < self.projects@.len(),
                        n == items_in(all[i as int].target),
                        all[i as int].selected,
                        pairs == (|at: (usize, usize)| (at.0 as int, at.1 as int)),
                        work@.map_values(pairs) == before + items_of(all, i as int).take(j as int),
                    decreases n - j,
                {
                    let ghost now = work@;
                    work.push((i, j));
                    proof {
                        assert(work@.map_values(pairs) =~= now.map_values(pairs).push(
                            (i as int, j as int),
                        ));
                        assert(items_of(all, i as int).take(j + 1) =~= items_of(
                            all,
                            i as int,
                        ).take(j as int).push((i as int, j as int)));
                        assert(work@.map_values(pairs) =~= before + items_of(all, i as int).take(
                            j + 1,
                        ));
                    }
                    j += 1;
                }
                assert(items_of(all, i as int).take(j as int) =~= items_of(all, i as int));
            } else {
                assert(before + items_of(all, i as int) =~= before);
            }
            i += 1;
        }
        let total = work.len();
        self.phase = AppPhase::Deleting { current: 0, total };
        Cleanup { work, done: 0, freed: 0 }
    }

    /// The item at place `w` of what is to be deleted.
    pub fn item(&self, run: &Cleanup, w: usize) -> (r: CleanItem<'_, P>)
        requires
            cleaning(self@, *run),
            w < run.work@.len(),
        ensures
            r@ == item_at(self@.projects, work_of(self@.projects)[w as int]),
    {
        let ghost all = self@.projects;
        let (i, j) = run.work[w];
        proof {
            assert(run.items()[w as int] == (i as int, j as int));
            only_chosen_items_are_deleted(all, w as int);
            assert(all[i as int] == self.projects@[i as int]@);
        }
        match &self.projects[i].target {
            CleanTarget::Directories(dirs) => CleanItem::Directory(&dirs[j]),
            CleanTarget::DockerImage { id } => CleanItem::Image {
                id: id.as_str(),
                size: self.find_image_size(id.as_str()),
            },
        }
    }

    /// The size of the first listed image with this identifier.
    fn find_image_size(&self, id: &str) -> (r: u64)
        ensures
            r == image_size(self@.projects, id@),
    {
        let ghost all = self@.projects;
        let mut i: usize = 0;
        assert(all.skip(0) =~= all);
        while i < self.projects.len()
            invariant
                i <= self.projects@.len(),
                all == self@.projects,
                image_size(all, id@) == image_size(all.skip(i as int), id@),
            decreases self.projects@.len() - i,
        {
            proof {
                assert(all[i as int] == self.projects@[i as int]@);
                assert(all.skip(i as int).skip(1) =~= all.skip(i + 1));
                assert(all.skip(i as int)[0] == all[i as int]);
            }
            if let CleanTarget::DockerImage { id: other } = &self.projects[i].target {
                if same_text(other.as_str(), id) {
                    return self.projects[i].size;
                }
            }
            i += 1;
        }
        0
    }

    /// The item that is to be deleted next; `None` when all are done.
    pub fn next_removal(&self, run: &Cleanup) -> (r: Option<CleanItem<'_, P>>)
        requires
            cleaning(self@, *run),
        ensures
            match r {
                Some(item) => run.done < run.work@.len() && item@ == item_at(
                    self@.projects,
                    work_of(self@.projects)[run.done as int],
                ),
                None => run.done == run.work@.len(),
            },
    {
        if run.done < run.work.len() {
            Some(self.item(run, run.done))
        } else {
            None
        }
    }

    /// Notes that an item was deleted that took `size` bytes: what was measured of a directory,
    /// or what is listed of an image.
    pub fn removal_done(&mut self, run: &mut Cleanup, size: u64)
        requires
            cleaning(old(self)@, *old(run)),
            old(run).done < old(run).work@.len(),
            old(run).freed + size <= u64::MAX,
            item_at(
                old(self)@.projects,
                work_of(old(self)@.projects)[old(run).done as int],
            ) matches ItemView::Image { size: listed, .. } ==> size == listed,
        ensures
            removal_step(*old(run), *final(run), size),
            final(self)@ == old(self)@.in_phase(
                AppPhase::Deleting {
                    current: final(run).done,
                    total: final(run).work@.len() as usize,
                },
            ),
            cleaning(final(self)@, *final(run)),
            old(self)@.valid() ==> final(self)@.valid(),
    {
        let total = run.work.len();
        run.freed = run.freed + size;
        run.done = run.done + 1;
        self.phase = AppPhase::Deleting { current: run.done, total };
    }

    /// Ends a deletion: drops the projects of which nothing is left, and chooses none of the
    /// others. `present` says of each item whether it is still there.
    pub fn finish_deletion(&mut self, run: Cleanup, present: &Vec<bool>)
        requires
            cleaning(old(self)@, run),
            run.done == run.work@.len(),
            present@.len() == run.work@.len(),
        ensures
            final(self)@ == (AppView {
                projects: left_of(old(self)@.projects, present@),
                phase: AppPhase::Done { freed: run.freed },
                ..old(self)@
            }),
            old(self)@.valid() ==> final(self)@.valid(),
    {
        let ghost all = self@.projects;
        let ghost work = work_of(all);
        let ghost given = self.projects@;
        let n = self.projects.len();
        let mut keep: Vec<bool> = Vec::new();
        let mut i: usize = 0;
        while i < n
            invariant
                i <= n,
                n == self.projects@.len(),
                self@ == old(self)@,
                all == self@.projects,
                keep@.len() == i,
                forall|k: int| 0 <= k < i ==> #[trigger] keep@[k] == !all[k].selected,
            decreases n - i,
        {
            assert(all[i as int] == self.projects@[i as int]@);
            keep.push(!self.projects[i].selected);
            i += 1;
        }
        let mut w: usize = 0;
        while w < run.work.len()
            invariant
                w <= run.work@.len(),
                present@.len() == run.work@.len(),
                run.items() == work,
                work == work_of(all),
                n == all.len(),
                keep@.len() == n,
                forall|k: int|
                    0 <= k < n ==> #[trigger] keep@[k] == (!all[k].selected || exists|v: int|
                        0 <= v < w && #[trigger] work[v].0 == k && present@[v]),
            decreases run.work@.len() - w,
        {
            let (project, _) = run.work[w];
            proof {
                assert(run.items()[w as int].0 == project);
                only_chosen_items_are_deleted(all, w as int);
            }
            let ghost before = keep@;
            if present[w] {
                keep.set(project, true);
            }
            proof {
                assert forall|k: int| 0 <= k < n implies #[trigger] keep@[k] == (!all[k].selected
                    || exists|v: int| 0 <= v < w + 1 && #[trigger] work[v].0 == k && present@[v]) by {
                    assert(before[k] == (!all[k].selected || exists|v: int|
                        0 <= v < w && #[trigger] work[v].0 == k && present@[v]));
                    if keep@[k] && !before[k] {
                        assert(work[w as int].0 == k && present@[w as int]);
                    }
                }
            }
            w += 1;
        }
        proof {
            assert forall|k: int| 0 <= k < n implies #[trigger] keep@[k] == stays(
                all,
                present@,
                k,
            ) by {}
        }
        let mut projects: Vec<Project<P>> = Vec::new();
        std::mem::swap(&mut projects, &mut self.projects);
        let mut left: Vec<Project<P>> = Vec::new();
        assert(left.deep_view() =~= left_before(all, present@, 0));
        let mut at: usize = 0;
        for project in it: projects
            invariant
                it.seq() == given,
                all == given.map_values(|p: Project<P>| p@),
                at == it.index(),
                n == given.len(),
                keep@.len() == n,
                forall|k: int|
                    0 <= k < given.len() ==> #[trigger] keep@[k] == stays(all, present@, k),
                left.deep_view() == left_before(all, present@, at as int),
        {
            let ghost before = left.deep_view();
            assert(all[at as int] == project@);
            if keep[at] {
                let mut kept = project;
                kept.selected = false;
                left.push(kept);
                assert(left.deep_view() =~= before.push(with_selected(all[at as int], false)));
            }
            at += 1;
        }
        proof {
            deletion_leaves_a_clear_list(all, present@);
        }
        self.projects = left;
        self.phase = AppPhase::Done { freed: run.freed };
    }
}

/// What is handed out for deletion, one after the other.
pub open spec fn handed_out<P>(projects: Seq<ProjectView<P>>) -> Seq<ItemView<P>> {
    work_of(projects).map_values(|at: (int, int)| item_at(projects, at))
}

/// Every directory of every chosen project is handed out for deletion, and so is every chosen image.
pub proof fn everything_chosen_is_handed_out<P>(projects: Seq<ProjectView<P>>, i: int)
    requires
        0 <= i < projects.len(),
        projects[i].selected,
    ensures
        match projects[i].target {
            TargetView::Directories(dirs) => forall|j: int|
                0 <= j < dirs.len() ==> handed_out(projects).contains(
                    ItemView::Directory(#[trigger] dirs[j]),
                ),
            TargetView::DockerImage { id } => handed_out(projects).contains(
                ItemView::Image { id, size: image_size(projects, id) },
            ),
        },
{
    let work = work_of(projects);
    match projects[i].target {
        TargetView::Directories(dirs) => {
            assert forall|j: int| 0 <= j < dirs.len() implies handed_out(projects).contains(
                ItemView::Directory(#[trigger] dirs[j]),
            ) by {
                all_chosen_items_are_deleted(projects, i, j);
                let w = choose|w: int| 0 <= w < work.len() && work[w] == (i, j);
                assert(handed_out(projects)[w] == ItemView::Directory(dirs[j]));
            }
        },
        TargetView::DockerImage { id } => {
            all_chosen_items_are_deleted(projects, i, 0);
            let w = choose|w: int| 0 <= w < work.len() && work[w] == (i, 0int);
            let size = image_size(projects, id);
            assert(handed_out(projects)[w] == (ItemView::<P>::Image { id, size }));
        },
    }
}

/// Nothing else is handed out: every item is a directory, or the image, of a chosen project.
pub proof fn nothing_else_is_handed_out<P>(projects: Seq<ProjectView<P>>, w: int) -> (i: int)
    requires
        0 <= w < handed_out(projects).len(),
    ensures
        0 <= i < projects.len(),
        projects[i].selected,
        match handed_out(projects)[w] {
            ItemView::Directory(dir) => projects[i].target matches TargetView::Directories(dirs)
                && dirs.contains(dir),
            ItemView::Image { id, .. } => projects[i].target == (TargetView::<P>::DockerImage {
                id,
            }),
        },
{
    only_chosen_items_are_deleted(projects, w);
    let at = work_of(projects)[w];
    if let TargetView::Directories(dirs) = projects[at.0].target {
        assert(dirs.contains(dirs[at.1]));
    }
    at.0
}

/// What there is to delete of the chosen ones among the first `n` projects: their directories as they
/// stand, and their images.
pub open spec fn removals_before<P>(projects: Seq<ProjectView<P>>, n: int) -> Seq<ItemView<P>>
    decreases n,
{
    if n <= 0 {
        Seq::empty()
    } else if !projects[n - 1].selected {
        removals_before(projects, n - 1)
    } else {
        removals_before(projects, n - 1) + match projects[n - 1].target {
            TargetView::Directories(dirs) => dirs.map_values(|dir: P| ItemView::Directory(dir)),
            TargetView::DockerImage { id } => seq![
                ItemView::Image { id, size: image_size(projects, id) },
            ],
        }
    }
}

/// Items are handed out in the order of the list, the directories of a project in their order, and
/// each once.
pub proof fn items_are_handed_out_in_order<P>(projects: Seq<ProjectView<P>>)
    ensures
        handed_out(projects) == removals_before(projects, projects.len() as int),
{
    lemma_handed_out(projects, projects.len() as int);
}

proof fn lemma_handed_out<P>(projects: Seq<ProjectView<P>>, n: int)
    requires
        0 <= n <= projects.len(),
    ensures
        items_before(projects, n).map_values(|at: (int, int)| item_at(projects, at))
            == removals_before(projects, n),
    decreases n,
{
    let f = |at: (int, int)| item_at(projects, at);
    if n > 0 {
        lemma_handed_out(projects, n - 1);
        let front = items_before(projects, n - 1);
        let back = items_of(projects, n - 1);
        assert((front + back).map_values(f) =~= front.map_values(f) + back.map_values(f));
        if projects[n - 1].selected {
            match projects[n - 1].target {
                TargetView::Directories(dirs) => {
                    assert(back.map_values(f) =~= dirs.map_values(|dir: P| ItemView::Directory(dir)));
                },
                TargetView::DockerImage { id } => {
                    assert(back.map_values(f) =~= seq![
                        ItemView::Image { id, size: image_size(projects, id) },
                    ]);
                },
            }
        } else {
            assert(back.map_values(f) =~= Seq::<ItemView<P>>::empty());
            assert(front + back =~= front);
        }
        assert(items_before(projects, n).map_values(f) =~= removals_before(projects, n));
    } else {
        assert(items_before(projects, n).map_values(f) =~= removals_before(projects, n));
    }
}

/// An image frees the size of the first project in the list that is the image of its identifier.
pub proof fn images_free_their_listed_size<P>(
    projects: Seq<ProjectView<P>>,
    id: Seq<char>,
    k: int,
)
    requires
        0 <= k <= projects.len(),
        forall|i: int|
            0 <= i < k ==> (#[trigger] projects[i]).target != (TargetView::<P>::DockerImage { id }),
        k < projects.len() ==> projects[k].target == (TargetView::<P>::DockerImage { id }),
    ensures
        image_size(projects, id) == if k < projects.len() {
            projects[k].size
        } else {
            0
        },
    decreases k,
{
    if k > 0 {
        assert(projects[0].target != (TargetView::<P>::DockerImage { id }));
        let rest = projects.skip(1);
        assert forall|i: int| 0 <= i < k - 1 implies (#[trigger] rest[i]).target
            != (TargetView::<P>::DockerImage { id }) by {
            assert(rest[i] == projects[i + 1]);
        }
        images_free_their_listed_size(rest, id, k - 1);
    }
}

/// Whether a project is left, when `there` says which things are still there: it was not chosen, or
/// one of its directories, or its image, is.
pub open spec fn is_left<P>(
    projects: Seq<ProjectView<P>>,
    there: spec_fn(ItemView<P>) -> bool,
    p: ProjectView<P>,
) -> bool {
    !p.selected || match p.target {
        TargetView::Directories(dirs) => exists|j: int|
            0 <= j < dirs.len() && there(ItemView::Directory(#[trigger] dirs[j])),
        TargetView::DockerImage { id } => there(
            ItemView::Image { id, size: image_size(projects, id) },
        ),
    }
}

/// After a deletion the list holds, in their order and with nothing chosen, just the projects that
/// were not chosen and those of which something is still there.
pub proof fn what_is_still_there_stays<P>(
    projects: Seq<ProjectView<P>>,
    present: Seq<bool>,
    there: spec_fn(ItemView<P>) -> bool,
)
    requires
        present.len() == handed_out(projects).len(),
        forall|w: int|
            0 <= w < present.len() ==> #[trigger] present[w] == there(handed_out(projects)[w]),
    ensures
        left_of(projects, present) == projects.filter(
            |p: ProjectView<P>| is_left(projects, there, p),
        ).map_values(|p: ProjectView<P>| ProjectView { selected: false, ..p }),
{
    lemma_left_there(projects, present, there, projects.len() as int);
    assert(projects.take(projects.len() as int) =~= projects);
}

proof fn lemma_stays_there<P>(
    projects: Seq<ProjectView<P>>,
    present: Seq<bool>,
    there: spec_fn(ItemView<P>) -> bool,
    i: int,
)
    requires
        present.len() == handed_out(projects).len(),
        forall|w: int|
            0 <= w < present.len() ==> #[trigger] present[w] == there(handed_out(projects)[w]),
        0 <= i < projects.len(),
    ensures
        stays(projects, present, i) == is_left(projects, there, projects[i]),
{
    let work = work_of(projects);
    if projects[i].selected {
        if stays(projects, present, i) {
            let w = choose|w: int|
                0 <= w < work.len() && #[trigger] work[w].0 == i && present[w];
            only_chosen_items_are_deleted(projects, w);
            assert(there(handed_out(projects)[w]));
            if let TargetView::Directories(dirs) = projects[i].target {
                assert(handed_out(projects)[w] == ItemView::Directory(dirs[work[w].1]));
            }
        }
        if is_left(projects, there, projects[i]) {
            match projects[i].target {
                TargetView::Directories(dirs) => {
                    let j = choose|j: int|
                        0 <= j < dirs.len() && there(ItemView::Directory(#[trigger] dirs[j]));
                    all_chosen_items_are_deleted(projects, i, j);
                    let w = choose|w: int| 0 <= w < work.len() && work[w] == (i, j);
                    assert(handed_out(projects)[w] == ItemView::Directory(dirs[j]));
                    assert(present[w]);
                    assert(work[w].0 == i);
                },
                TargetView::DockerImage { id } => {
                    all_chosen_items_are_deleted(projects, i, 0);
                    let w = choose|w: int| 0 <= w < work.len() && work[w] == (i, 0int);
                    assert(present[w]);
                    assert(work[w].0 == i);
                },
            }
        }
    }
}

proof fn lemma_left_there<P>(
    projects: Seq<ProjectView<P>>,
    present: Seq<bool>,
    there: spec_fn(ItemView<P>) -> bool,
    n: int,
)
    requires
        present.len() == handed_out(projects).len(),
        forall|w: int|
            0 <= w < present.len() ==> #[trigger] present[w] == there(handed_out(projects)[w]),
        0 <= n <= projects.len(),
    ensures
        left_before(projects, present, n) == projects.take(n).filter(
            |p: ProjectView<P>| is_left(projects, there, p),
        ).map_values(|p: ProjectView<P>| ProjectView { selected: false, ..p }),
    decreases n,
{
    reveal(Seq::filter);
    let keep = |p: ProjectView<P>| is_left(projects, there, p);
    let clear = |p: ProjectView<P>| ProjectView { selected: false, ..p };
    let part = projects.take(n);
    if n > 0 {
        lemma_left_there(projects, present, there, n - 1);
        lemma_stays_there(projects, present, there, n - 1);
        assert(part.drop_last() =~= projects.take(n - 1));
        assert(part.last() == projects[n - 1]);
        let front = projects.take(n - 1).filter(keep);
        assert(front.push(projects[n - 1]).map_values(clear) =~= front.map_values(clear).push(
            clear(projects[n - 1]),
        ));
    } else {
        assert(part.filter(keep).map_values(clear) =~= Seq::<ProjectView<P>>::empty());
    }
}

/// Sums add up, however they are divided.
pub proof fn sums_add_up(a: Seq<u64>, b: Seq<u64>, size: u64)
    ensures
        sum_of(a + b) == sum_of(a) + sum_of(b),
        sum_of(seq![size]) == size,
    decreases b.len(),
{
    assert(seq![size].drop_last() =~= Seq::<u64>::empty());
    assert(sum_of(Seq::<u64>::empty()) == 0);
    assert(seq![size].last() == size);
    if b.len() == 0 {
        assert(a + b =~= a);
    } else {
        sums_add_up(a, b.drop_last(), size);
        assert((a + b).drop_last() =~= a + b.drop_last());
        assert((a + b).last() == b.last());
    }
}

} // verus!
