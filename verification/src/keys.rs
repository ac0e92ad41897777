//! Moving through the list, choosing from it, and what each key does.

use crate::app::chosen;
use crate::app::largest_first;
use crate::app::sorted_by_size;
use crate::app::total_of;
use crate::app::with_selected;
use crate::app::App;
use crate::app::AppPhase;
use crate::app::AppView;
use crate::order::sort_by_size;
use crate::order::sorting_keeps_the_total;
use crate::project::Project;
use crate::project::ProjectView;
use vstd::prelude::*;

verus! {

/// The keys that matter.
#[derive(Clone, Copy, Debug, PartialEq, Eq, Structural)]
pub enum Key {
    Char(char),
    Enter,
    Esc,
    Up,
    Down,
    Other,
}

/// What follows upon a key.
#[derive(Clone, Copy, Debug, PartialEq, Eq, Structural)]
pub enum Flow {
    /// The tool goes on.
    Continue,
    /// The tool ends.
    Quit,
    /// What is chosen is to be deleted.
    Clean,
}

/// The row above, in a list of `count` rows; the last one above the first.
pub open spec fn row_above(row: Option<usize>, count: nat) -> Option<usize> {
    let i = match row {
        Some(i) => i as int,
        None => 0,
    };
    if count == 0 {
        row
    } else if i == 0 {
        Some((count - 1) as usize)
    } else {
        Some((i - 1) as usize)
    }
}

/// The row below, in a list of `count` rows; the first one below the last.
pub open spec fn row_below(row: Option<usize>, count: nat) -> Option<usize> {
    let i = match row {
        Some(i) => i as int,
        None => 0,
    };
    if count == 0 {
        row
    } else if i >= count - 1 {
        Some(0usize)
    } else {
        Some((i + 1) as usize)
    }
}

/// The projects after the choice of the one in `row` was turned round.
pub open spec fn toggled<P>(
    projects: Seq<ProjectView<P>>,
    row: Option<usize>,
) -> Seq<ProjectView<P>> {
    match row {
        Some(i) if i < projects.len() => projects.update(
            i as int,
            with_selected(projects[i as int], !projects[i as int].selected),
        ),
        _ => projects,
    }
}

/// Whether every project is chosen.
pub open spec fn all_chosen<P>(projects: Seq<ProjectView<P>>) -> bool {
    forall|i: int| 0 <= i < projects.len() ==> (#[trigger] projects[i]).selected
}

/// The projects, all chosen or none.
pub open spec fn each_selected<P>(
    projects: Seq<ProjectView<P>>,
    selected: bool,
) -> Seq<ProjectView<P>> {
    projects.map_values(|p: ProjectView<P>| with_selected(p, selected))
}

/// The projects after all were chosen, or none, where all were chosen before.
pub open spec fn all_toggled<P>(projects: Seq<ProjectView<P>>) -> Seq<ProjectView<P>> {
    each_selected(projects, !all_chosen(projects))
}

impl<P> AppView<P> {
    pub open spec fn moved_up(self) -> AppView<P> {
        AppView { row: row_above(self.row, self.projects.len()), ..self }
    }

    pub open spec fn moved_down(self) -> AppView<P> {
        AppView { row: row_below(self.row, self.projects.len()), ..self }
    }

    pub open spec fn toggled(self) -> AppView<P> {
        AppView { projects: toggled(self.projects, self.row), ..self }
    }

    pub open spec fn all_toggled(self) -> AppView<P> {
        AppView { projects: all_toggled(self.projects), ..self }
    }

    pub open spec fn in_phase(self, phase: AppPhase) -> AppView<P> {
        AppView { phase, ..self }
    }
}

/// What a key does while the list is shown.
pub open spec fn select_key<P>(a: AppView<P>, key: Key) -> (AppView<P>, Flow) {
    match key {
        Key::Char('q') | Key::Esc => (a, Flow::Quit),
        Key::Up | Key::Char('k') => (a.moved_up(), Flow::Continue),
        Key::Down | Key::Char('j') => (a.moved_down(), Flow::Continue),
        Key::Char(' ') => (a.toggled(), Flow::Continue),
        Key::Char('a') => (a.all_toggled(), Flow::Continue),
        Key::Enter => if chosen(a.projects).len() > 0 {
            (a.in_phase(AppPhase::Confirming), Flow::Continue)
        } else {
            (a, Flow::Continue)
        },
        _ => (a, Flow::Continue),
    }
}

/// What a key does: the state after it, and what follows.
pub open spec fn key_pressed<P>(a: AppView<P>, key: Key) -> (AppView<P>, Flow) {
    match a.phase {
        AppPhase::Scanning => (
            a,
            if key == Key::Char('q') || key == Key::Esc {
                Flow::Quit
            } else {
                Flow::Continue
            },
        ),
        AppPhase::Selecting => select_key(a, key),
        AppPhase::Confirming => match key {
            Key::Char('y') => (a, Flow::Clean),
            Key::Char('n') | Key::Esc => (a.in_phase(AppPhase::Selecting), Flow::Continue),
            _ => (a, Flow::Continue),
        },
        AppPhase::Deleting { .. } => (a, Flow::Continue),
        AppPhase::Done { .. } => match key {
            Key::Char('q') | Key::Esc => (a, Flow::Quit),
            Key::Enter => (a.in_phase(AppPhase::Selecting), Flow::Continue),
            _ => (a, Flow::Continue),
        },
    }
}

proof fn lemma_same_sizes<P>(a: Seq<ProjectView<P>>, b: Seq<ProjectView<P>>)
    requires
        a.len() == b.len(),
        forall|i: int| 0 <= i < a.len() ==> (#[trigger] a[i]).size == b[i].size,
    ensures
        total_of(a) == total_of(b),
        largest_first(a) ==> largest_first(b),
    decreases a.len(),
{
    if a.len() > 0 {
        lemma_same_sizes(a.drop_last(), b.drop_last());
        assert(a[a.len() - 1].size == b[a.len() - 1].size);
    }
    if largest_first(a) {
        assert forall|i: int, j: int| 0 <= i <= j < b.len() implies (#[trigger] b[i]).size >= (
        #[trigger] b[j]).size by {
            assert(a[i].size >= a[j].size);
        }
    }
}

/// No key breaks what holds of the state.
pub proof fn keys_keep_the_state_valid<P>(a: AppView<P>, key: Key)
    requires
        a.valid(),
    ensures
        key_pressed(a, key).0.valid(),
{
    lemma_same_sizes(a.projects, toggled(a.projects, a.row));
    lemma_same_sizes(a.projects, all_toggled(a.projects));
}

/// Nothing is deleted but upon `y`, when asked, with something chosen.
pub proof fn deletion_is_confirmed<P>(a: AppView<P>, key: Key)
    requires
        a.valid(),
    ensures
        key_pressed(a, key).1 == Flow::Clean <==> a.phase is Confirming && key == Key::Char('y'),
        key_pressed(a, key).1 == Flow::Clean ==> chosen(a.projects).len() > 0 && key_pressed(
            a,
            key,
        ).0 == a,
{
}

/// The tool ends upon `q` and upon `Esc`, but not while it asks or deletes; nothing changes by
/// that.
pub proof fn quitting_needs_its_key<P>(a: AppView<P>, key: Key)
    ensures
        key_pressed(a, key).1 == Flow::Quit <==> match a.phase {
            AppPhase::Scanning | AppPhase::Selecting | AppPhase::Done { .. } => key == Key::Char('q')
                || key == Key::Esc,
            AppPhase::Confirming | AppPhase::Deleting { .. } => false,
        },
        key_pressed(a, key).1 == Flow::Quit ==> key_pressed(a, key).0 == a,
{
}

/// No key changes what is listed: only what is chosen of it, where the cursor is, and what the
/// tool is doing.
pub proof fn keys_keep_the_list<P>(a: AppView<P>, key: Key)
    ensures
        each_selected(key_pressed(a, key).0.projects, false) == each_selected(a.projects, false),
        key_pressed(a, key).0.scanning_done == a.scanning_done,
        key_pressed(a, key).0.dirs_scanned == a.dirs_scanned,
{
    assert(each_selected(key_pressed(a, key).0.projects, false) =~= each_selected(
        a.projects,
        false,
    ));
}

/// The question is asked only upon `Enter` in the list, with something chosen.
pub proof fn confirmation_needs_a_choice<P>(a: AppView<P>, key: Key)
    requires
        !(a.phase is Confirming),
    ensures
        key_pressed(a, key).0.phase is Confirming <==> a.phase is Selecting && key == Key::Enter
            && chosen(a.projects).len() > 0,
{
}

/// The row below the row above is the row itself, and the other way round, for every row of the
/// list.
pub proof fn moves_undo_each_other(row: usize, count: nat)
    requires
        row < count <= usize::MAX,
    ensures
        row_below(row_above(Some(row), count), count) == Some(row),
        row_above(row_below(Some(row), count), count) == Some(row),
{
}

/// The row above or below is a row of the list, whatever row of it one starts from.
pub proof fn moves_stay_in_the_list(row: usize, count: nat)
    requires
        row < count <= usize::MAX,
    ensures
        row_above(Some(row), count) matches Some(i) && i < count,
        row_below(Some(row), count) matches Some(i) && i < count,
{
}

/// Turning a choice round twice changes nothing.
pub proof fn toggling_twice_changes_nothing<P>(projects: Seq<ProjectView<P>>, row: Option<usize>)
    ensures
        toggled(toggled(projects, row), row) == projects,
{
    assert(toggled(toggled(projects, row), row) =~= projects);
}

/// After choosing all, every project is chosen, or, where all were chosen before, none is; doing
/// it once more turns that round.
pub proof fn choosing_all<P>(projects: Seq<ProjectView<P>>)
    requires
        projects.len() > 0,
    ensures
        !all_chosen(projects) ==> all_chosen(all_toggled(projects)),
        all_chosen(projects) ==> forall|i: int|
            0 <= i < projects.len() ==> !(#[trigger] all_toggled(projects)[i]).selected,
        !all_chosen(projects) ==> all_toggled(all_toggled(projects)) == each_selected(
            projects,
            false,
        ),
        all_chosen(projects) ==> all_toggled(all_toggled(projects)) == projects,
{
    let once = all_toggled(projects);
    if all_chosen(projects) {
        assert(!once[0].selected);
        assert forall|i: int| 0 <= i < projects.len() implies #[trigger] all_toggled(once)[i]
            == projects[i] by {
            assert(projects[i].selected);
        }
        assert(all_toggled(once) =~= projects);
    } else {
        assert(all_toggled(once) =~= each_selected(projects, false));
    }
}

impl<P> App<P> {
    /// Moves the cursor up a row.
    pub fn move_up(&mut self)
        ensures
            final(self)@ == old(self)@.moved_up(),
    {
        let count = self.project_count();
        if count == 0 {
            return;
        }
        let i: usize = match self.row {
            Some(i) => i,
            None => 0,
        };
        self.row = Some(
            if i == 0 {
                count - 1
            } else {
                i - 1
            },
        );
    }

    /// Moves the cursor down a row.
    pub fn move_down(&mut self)
        ensures
            final(self)@ == old(self)@.moved_down(),
    {
        let count = self.project_count();
        if count == 0 {
            return;
        }
        let i: usize = match self.row {
            Some(i) => i,
            None => 0,
        };
        self.row = Some(
            if i >= count - 1 {
                0
            } else {
                i + 1
            },
        );
    }

    /// Puts the cursor on a row.
    pub fn set_row(&mut self, row: Option<usize>)
        ensures
            final(self)@ == (AppView { row, ..old(self)@ }),
            old(self)@.valid() ==> final(self)@.valid(),
    {
        self.row = row;
    }

    /// Turns round whether the project under the cursor is chosen.
    pub fn toggle_selected(&mut self)
        ensures
            final(self)@ == old(self)@.toggled(),
    {
        if let Some(i) = self.row {
            if i < self.projects.len() {
                let ghost before = self@.projects;
                let selected = self.projects[i].selected;
                self.projects[i].selected = !selected;
                assert(self@.projects =~= toggled(before, Some(i)));
            }
        }
    }

    /// Chooses all projects, or none, where all are chosen.
    pub fn select_all(&mut self)
        ensures
            final(self)@ == old(self)@.all_toggled(),
    {
        let ghost before = self@;
        let mut all = true;
        let mut i: usize = 0;
        while i < self.projects.len()
            invariant
                i <= self.projects@.len(),
                self@ == before,
                all == (forall|j: int| 0 <= j < i ==> (#[trigger] before.projects[j]).selected),
            decreases self.projects@.len() - i,
        {
            assert(before.projects[i as int] == self.projects@[i as int]@);
            if !self.projects[i].selected {
                all = false;
            }
            i += 1;
        }
        assert(all == all_chosen(before.projects));
        self.select_each(!all);
    }

    /// Chooses all projects, or none.
    pub(crate) fn select_each(&mut self, selected: bool)
        ensures
            final(self)@ == (AppView {
                projects: each_selected(old(self)@.projects, selected),
                ..old(self)@
            }),
    {
        let ghost before = self@;
        let mut i: usize = 0;
        while i < self.projects.len()
            invariant
                i <= self.projects@.len(),
                self@ == (AppView { projects: self@.projects, ..before }),
                self@.projects.len() == before.projects.len(),
                forall|j: int|
                    0 <= j < i ==> #[trigger] self@.projects[j] == with_selected(
                        before.projects[j],
                        selected,
                    ),
                forall|j: int|
                    i <= j < self@.projects.len() ==> #[trigger] self@.projects[j]
                        == before.projects[j],
            decreases self.projects@.len() - i,
        {
            let ghost now = self@.projects;
            assert(now[i as int] == before.projects[i as int]);
            self.projects[i].selected = selected;
            assert(self@.projects =~= now.update(i as int, with_selected(now[i as int], selected)));
            i += 1;
        }
        assert(self@.projects =~= each_selected(before.projects, selected));
    }

    /// Goes on from scanning to showing the list, once the scan is over: the list is then sorted,
    /// the largest project first.
    pub fn tick(&mut self)
        ensures
            if old(self)@.phase is Scanning && old(self)@.scanning_done {
                &&& sorted_by_size(old(self)@.projects, final(self)@.projects)
                &&& final(self)@ == (AppView {
                    projects: final(self)@.projects,
                    phase: AppPhase::Selecting,
                    ..old(self)@
                })
            } else {
                final(self)@ == old(self)@
            },
            old(self)@.valid() ==> final(self)@.valid(),
    {
        if let AppPhase::Scanning = self.phase {
            if self.scanning_done {
                let mut projects: Vec<Project<P>> = Vec::new();
                std::mem::swap(&mut projects, &mut self.projects);
                self.projects = sort_by_size(projects);
                self.phase = AppPhase::Selecting;
                proof {
                    sorting_keeps_the_total(old(self)@.projects, self@.projects);
                }
            }
        }
    }

    /// Does what a key asks for, and says what follows.
    pub fn handle_key(&mut self, key: Key) -> (flow: Flow)
        ensures
            (final(self)@, flow) == key_pressed(old(self)@, key),
            old(self)@.valid() ==> final(self)@.valid(),
    {
        proof {
            if self@.valid() {
                keys_keep_the_state_valid(self@, key);
            }
        }
        match self.phase {
            AppPhase::Scanning => match key {
                Key::Char('q') | Key::Esc => Flow::Quit,
                _ => Flow::Continue,
            },
            AppPhase::Selecting => {
                match key {
                    Key::Char('q') | Key::Esc => {
                        return Flow::Quit;
                    },
                    Key::Up | Key::Char('k') => {
                        self.move_up();
                    },
                    Key::Down | Key::Char('j') => {
                        self.move_down();
                    },
                    Key::Char(' ') => {
                        self.toggle_selected();
                    },
                    Key::Char('a') => {
                        self.select_all();
                    },
                    Key::Enter => {
                        if self.selected_count() > 0 {
                            self.phase = AppPhase::Confirming;
                        }
                    },
                    _ => {},
                }
                Flow::Continue
            },
            AppPhase::Confirming => match key {
                Key::Char('y') => Flow::Clean,
                Key::Char('n') | Key::Esc => {
                    self.phase = AppPhase::Selecting;
                    Flow::Continue
                },
                _ => Flow::Continue,
            },
            AppPhase::Deleting { .. } => Flow::Continue,
            AppPhase::Done { .. } => match key {
                Key::Char('q') | Key::Esc => Flow::Quit,
                Key::Enter => {
                    self.phase = AppPhase::Selecting;
                    Flow::Continue
                },
                _ => Flow::Continue,
            },
        }
    }
}

/// Going up or down is going round by one row.
pub proof fn rows_go_round(row: usize, count: nat)
    requires
        row < count <= usize::MAX,
    ensures
        row_below(Some(row), count) == Some(((row + 1) % count as int) as usize),
        row_above(Some(row), count) == Some(((row + count - 1) % count as int) as usize),
{
    if row + 1 < count {
        vstd::arithmetic::div_mod::lemma_small_mod((row + 1) as nat, count);
    } else {
        vstd::arithmetic::div_mod::lemma_mod_self_0(count as int);
    }
    if row == 0 {
        vstd::arithmetic::div_mod::lemma_small_mod((count - 1) as nat, count);
    } else {
        vstd::arithmetic::div_mod::lemma_mod_add_multiples_vanish(row - 1, count as int);
        vstd::arithmetic::div_mod::lemma_small_mod((row - 1) as nat, count);
    }
}

/// The keys of the list: the arrows, and `k` and `j` like them, move the cursor and do nothing else;
/// the space bar turns round the choice of the project under the cursor, and of no other; `a` gives
/// all projects the same choice.
pub proof fn list_keys_do_what_they_say<P>(a: AppView<P>, i: int)
    requires
        a.phase is Selecting,
        0 <= i < a.projects.len(),
    ensures
        key_pressed(a, Key::Up) == ((AppView {
            row: row_above(a.row, a.projects.len()),
            ..a
        }), Flow::Continue),
        key_pressed(a, Key::Down) == ((AppView {
            row: row_below(a.row, a.projects.len()),
            ..a
        }), Flow::Continue),
        key_pressed(a, Key::Char('k')) == key_pressed(a, Key::Up),
        key_pressed(a, Key::Char('j')) == key_pressed(a, Key::Down),
        ({
            let (b, flow) = key_pressed(a, Key::Char(' '));
            &&& flow == Flow::Continue
            &&& b == (AppView { projects: b.projects, ..a })
            &&& b.projects.len() == a.projects.len()
            &&& b.projects[i] == (ProjectView {
                selected: if a.row == Some(i as usize) && i <= usize::MAX {
                    !a.projects[i].selected
                } else {
                    a.projects[i].selected
                },
                ..a.projects[i]
            })
        }),
        ({
            let (b, flow) = key_pressed(a, Key::Char('a'));
            &&& flow == Flow::Continue
            &&& b == (AppView { projects: b.projects, ..a })
            &&& b.projects.len() == a.projects.len()
            &&& b.projects[i] == (ProjectView {
                selected: exists|k: int|
                    0 <= k < a.projects.len() && !(#[trigger] a.projects[k]).selected,
                ..a.projects[i]
            })
        }),
{
    if let Some(r) = a.row {
        if i <= usize::MAX {
            assert(i as usize == r <==> i == r);
        }
    }
    if all_chosen(a.projects) {
        assert forall|k: int| 0 <= k < a.projects.len() implies (#[trigger] a.projects[k]).selected by {}
    }
}

/// The answers to the question: `n` and `Esc` go back to the list, `y` leaves all as it is for the
/// deletion. After a deletion `Enter` goes back to the list.
pub proof fn answers_do_what_they_say<P>(a: AppView<P>)
    ensures
        a.phase is Confirming ==> key_pressed(a, Key::Char('n')) == ((AppView {
            phase: AppPhase::Selecting,
            ..a
        }), Flow::Continue),
        a.phase is Confirming ==> key_pressed(a, Key::Esc) == key_pressed(a, Key::Char('n')),
        a.phase is Confirming ==> key_pressed(a, Key::Char('y')) == (a, Flow::Clean),
        a.phase is Done ==> key_pressed(a, Key::Enter) == ((AppView {
            phase: AppPhase::Selecting,
            ..a
        }), Flow::Continue),
        a.phase is Selecting && (exists|k: int|
            0 <= k < a.projects.len() && (#[trigger] a.projects[k]).selected) ==> key_pressed(
            a,
            Key::Enter,
        ) == ((AppView { phase: AppPhase::Confirming, ..a }), Flow::Continue),
        a.phase is Selecting && (forall|k: int|
            0 <= k < a.projects.len() ==> !(#[trigger] a.projects[k]).selected) ==> key_pressed(
            a,
            Key::Enter,
        ) == (a, Flow::Continue),
{
    let pred = |p: ProjectView<P>| p.selected;
    if exists|k: int| 0 <= k < a.projects.len() && (#[trigger] a.projects[k]).selected {
        let k = choose|k: int| 0 <= k < a.projects.len() && (#[trigger] a.projects[k]).selected;
        a.projects.lemma_filter_contains(pred, k);
        assert(chosen(a.projects).contains(a.projects[k]));
    } else if chosen(a.projects).len() > 0 {
        let first = chosen(a.projects)[0];
        a.projects.lemma_filter_pred(pred, 0);
        assert(chosen(a.projects).contains(first));
        a.projects.lemma_filter_contains_rev(pred, first);
        let k = choose|k: int| 0 <= k < a.projects.len() && a.projects[k] == first;
        assert(a.projects[k].selected);
    }
}

/// Whether a key means anything in a phase.
pub open spec fn has_meaning(phase: AppPhase, key: Key) -> bool {
    match key {
        Key::Char(c) => match phase {
            AppPhase::Scanning | AppPhase::Done { .. } => c == 'q',
            AppPhase::Selecting => c == 'q' || c == 'k' || c == 'j' || c == ' ' || c == 'a',
            AppPhase::Confirming => c == 'y' || c == 'n',
            AppPhase::Deleting { .. } => false,
        },
        Key::Enter => phase is Selecting || phase is Done,
        Key::Esc => !(phase is Deleting),
        Key::Up | Key::Down => phase is Selecting,
        Key::Other => false,
    }
}

/// Every other key does nothing.
pub proof fn other_keys_do_nothing<P>(a: AppView<P>, key: Key)
    requires
        !has_meaning(a.phase, key),
    ensures
        key_pressed(a, key) == (a, Flow::Continue),
{
}

/// Without a cursor the first row counts as the one that it is on. From behind the list it goes up by
/// one, and down to the first row. In an empty list it does not move.
pub proof fn the_cursor_may_be_anywhere(row: usize, count: nat)
    requires
        count <= usize::MAX,
    ensures
        count > 0 ==> row_above(None, count) == row_above(Some(0), count) && row_below(None, count)
            == row_below(Some(0), count),
        count > 0 && row >= count ==> row_above(Some(row), count) == Some((row - 1) as usize)
            && row_below(Some(row), count) == Some(0usize),
        row_above(Some(row), 0) == Some(row),
        row_below(Some(row), 0) == Some(row),
        row_above(None, 0) is None,
        row_below(None, 0) is None,
{
}

} // verus!
