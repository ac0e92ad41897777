//! The scan as a whole: first the directories, one after the other, then the container images, and
//! only then is it over.

use crate::app::total_of;
use crate::app::App;
use crate::app::AppView;
use crate::docker::can_name_images;
use crate::docker::can_shorten;
use crate::docker::has_short_id;
use crate::docker::images_have_names;
use crate::docker::lines_projects;
use crate::docker::scan_docker_images;
use crate::docker::short_id;
use crate::docker::shorten;
use crate::project::Project;
use crate::project::ProjectView;
use crate::text::lines;
use crate::text::lines_of;
use crate::text::trimmed;
use vstd::prelude::*;

verus! {

/// What the walk came upon.
#[derive(Clone, Copy, Debug, PartialEq, Eq, Structural)]
pub enum Entry {
    /// An entry that could not be read.
    Failed,
    /// A directory.
    Directory,
    /// Anything else.
    Other,
}

/// How far the scan has come.
#[derive(Clone, Copy, Debug, PartialEq, Eq, Structural)]
pub enum Stage {
    /// The walk goes on.
    Walking,
    /// The directory that the walk came upon is scanned.
    Scanning,
    /// The engine is asked for its images.
    Images,
    /// The engine is asked what its containers call their images.
    Names,
    /// It is asked once more, for names to resolve.
    NamesAgain,
    /// The names are resolved, one after the other.
    Inspecting,
    /// The images are to be listed.
    Listing,
    /// The scan is over.
    Finished,
}

/// What the container engine is asked.
#[derive(Clone, Copy, Debug)]
pub enum Query<'a> {
    /// Which images it has.
    Images,
    /// What its containers call their images.
    Containers,
    /// What the identifier of the image of this name is.
    Inspect(&'a str),
}

/// What the container engine is asked, as a value.
pub enum QueryView {
    Images,
    Containers,
    Inspect(Seq<char>),
}

impl<'a> View for Query<'a> {
    type V = QueryView;

    open spec fn view(&self) -> QueryView {
        match self {
            Query::Images => QueryView::Images,
            Query::Containers => QueryView::Containers,
            Query::Inspect(name) => QueryView::Inspect(name@),
        }
    }
}

/// The arguments with which the engine is asked. An image is printed as four columns, parted by
/// tabs; a container, as the name of its image.
pub open spec fn query_arguments(query: QueryView) -> Seq<Seq<char>> {
    match query {
        QueryView::Images => seq![
            "images"@,
            "--format"@,
            "{{.ID}}\t{{.Repository}}\t{{.Tag}}\t{{.Size}}"@,
        ],
        QueryView::Containers => seq!["ps"@, "-a"@, "--format"@, "{{.Image}}"@],
        QueryView::Inspect(name) => seq!["inspect"@, "--format"@, "{{.Id}}"@, name],
    }
}

impl<'a> Query<'a> {
    /// The arguments with which the engine is asked.
    pub fn arguments(&self) -> (r: Vec<&'a str>)
        ensures
            r.deep_view() == query_arguments(self@),
    {
        let r = match self {
            Query::Images => vec![
                "images",
                "--format",
                "{{.ID}}\t{{.Repository}}\t{{.Tag}}\t{{.Size}}",
            ],
            Query::Containers => vec!["ps", "-a", "--format", "{{.Image}}"],
            Query::Inspect(name) => vec!["inspect", "--format", "{{.Id}}", *name],
        };
        assert(r.deep_view() =~= query_arguments(self@));
        r
    }
}

/// What is to be done next.
pub enum SurveyAction<'a> {
    /// Fetch the next entry of the walk.
    NextEntry,
    /// Scan the directory that the walk came upon.
    ScanDirectory,
    /// Ask the container engine.
    Ask(Query<'a>),
    /// List the images.
    List,
    /// Nothing.
    Finish,
}

/// What is to be done next, as a value.
pub enum SurveyActionView {
    NextEntry,
    ScanDirectory,
    Ask(QueryView),
    List,
    Finish,
}

impl<'a> View for SurveyAction<'a> {
    type V = SurveyActionView;

    open spec fn view(&self) -> SurveyActionView {
        match self {
            SurveyAction::NextEntry => SurveyActionView::NextEntry,
            SurveyAction::ScanDirectory => SurveyActionView::ScanDirectory,
            SurveyAction::Ask(query) => SurveyActionView::Ask(query@),
            SurveyAction::List => SurveyActionView::List,
            SurveyAction::Finish => SurveyActionView::Finish,
        }
    }
}

/// The scan as a whole: it says what is to be done, and is told what came of it.
pub struct Survey {
    pub stage: Stage,
    /// What the engine printed of its images.
    pub images: String,
    /// What the containers call their images.
    pub names: Vec<String>,
    /// The names that are resolved.
    pub asked: Vec<String>,
    /// How many of them were resolved.
    pub inspected: usize,
    /// The short identifiers of the images in use.
    pub ids: Vec<String>,
}

/// The scan as a whole, as a value.
pub struct SurveyView {
    pub stage: Stage,
    pub images: Seq<char>,
    pub names: Seq<Seq<char>>,
    pub asked: Seq<Seq<char>>,
    pub inspected: nat,
    pub ids: Seq<Seq<char>>,
}

impl View for Survey {
    type V = SurveyView;

    open spec fn view(&self) -> SurveyView {
        SurveyView {
            stage: self.stage,
            images: self.images@,
            names: self.names.deep_view(),
            asked: self.asked.deep_view(),
            inspected: self.inspected as nat,
            ids: self.ids.deep_view(),
        }
    }
}

/// The scan before anything was done.
pub open spec fn survey_start() -> SurveyView {
    SurveyView {
        stage: Stage::Walking,
        images: Seq::empty(),
        names: Seq::empty(),
        asked: Seq::empty(),
        inspected: 0,
        ids: Seq::empty(),
    }
}

impl SurveyView {
    /// What holds of a scan at all times: while names are resolved, there is one left.
    pub open spec fn valid(self) -> bool {
        self.stage is Inspecting ==> self.inspected < self.asked.len()
    }

    /// What is to be done next.
    pub open spec fn action(self) -> SurveyActionView {
        match self.stage {
            Stage::Walking => SurveyActionView::NextEntry,
            Stage::Scanning => SurveyActionView::ScanDirectory,
            Stage::Images => SurveyActionView::Ask(QueryView::Images),
            Stage::Names | Stage::NamesAgain => SurveyActionView::Ask(QueryView::Containers),
            Stage::Inspecting => SurveyActionView::Ask(
                QueryView::Inspect(self.asked[self.inspected as int]),
            ),
            Stage::Listing => SurveyActionView::List,
            Stage::Finished => SurveyActionView::Finish,
        }
    }

    /// The images that no container uses.
    pub open spec fn unused_images<P>(self) -> Seq<ProjectView<P>> {
        lines_projects(lines_of(self.images), self.names, self.ids)
    }
}

/// What came of what was to be done.
pub enum SurveyEvent<P> {
    /// The walk came upon an entry.
    Walked(Entry),
    /// The walk is over.
    WalkEnded,
    /// The directory was scanned; this is its list entry, where there is one.
    Scanned(Option<ProjectView<P>>),
    /// The engine printed this; it could not be asked, or failed, where there is nothing.
    Replied(Option<Seq<char>>),
    /// The images were listed.
    Listed,
}

/// Whether an event is what comes of what is to be done.
pub open spec fn is_awaited<P>(s: SurveyView, event: SurveyEvent<P>) -> bool {
    match event {
        SurveyEvent::Walked(_) | SurveyEvent::WalkEnded => s.action() is NextEntry,
        SurveyEvent::Scanned(_) => s.action() is ScanDirectory,
        SurveyEvent::Replied(_) => s.action() is Ask,
        SurveyEvent::Listed => s.action() is List,
    }
}

/// The lines of a reply; an engine that could not be asked has nothing to tell.
pub open spec fn reply_lines(reply: Option<Seq<char>>) -> Seq<Seq<char>> {
    match reply {
        Some(output) => lines_of(output),
        None => Seq::empty(),
    }
}

/// The identifiers in use, after one more name was resolved. A name that cannot be resolved adds
/// none.
pub open spec fn with_id(ids: Seq<Seq<char>>, reply: Option<Seq<char>>) -> Seq<Seq<char>> {
    match reply {
        Some(output) => match short_id(trimmed(output)) {
            Some(id) => ids.push(id),
            None => ids,
        },
        None => ids,
    }
}

/// The stage in which names are resolved, as long as any is left.
pub open spec fn inspect_stage(left: bool) -> Stage {
    if left {
        Stage::Inspecting
    } else {
        Stage::Listing
    }
}

/// The scan after a reply. Without the images nothing more is asked.
pub open spec fn after_reply(s: SurveyView, reply: Option<Seq<char>>) -> SurveyView {
    match s.stage {
        Stage::Images => match reply {
            Some(output) => SurveyView { stage: Stage::Names, images: output, ..s },
            None => SurveyView { stage: Stage::Listing, ..s },
        },
        Stage::Names => SurveyView { stage: Stage::NamesAgain, names: reply_lines(reply), ..s },
        Stage::NamesAgain => SurveyView {
            stage: inspect_stage(reply_lines(reply).len() > 0),
            asked: reply_lines(reply),
            inspected: 0,
            ..s
        },
        Stage::Inspecting => SurveyView {
            stage: inspect_stage(s.inspected + 1 < s.asked.len()),
            inspected: s.inspected + 1,
            ids: with_id(s.ids, reply),
            ..s
        },
        _ => s,
    }
}

/// The scan after an event.
pub open spec fn survey_next<P>(s: SurveyView, event: SurveyEvent<P>) -> SurveyView {
    match event {
        SurveyEvent::Walked(Entry::Directory) => SurveyView { stage: Stage::Scanning, ..s },
        SurveyEvent::Walked(_) => s,
        SurveyEvent::WalkEnded => SurveyView { stage: Stage::Images, ..s },
        SurveyEvent::Scanned(_) => SurveyView { stage: Stage::Walking, ..s },
        SurveyEvent::Replied(reply) => after_reply(s, reply),
        SurveyEvent::Listed => SurveyView { stage: Stage::Finished, ..s },
    }
}

/// The number after `n`; nought after the largest.
pub open spec fn count_on(n: u64) -> u64 {
    if n == u64::MAX {
        0
    } else {
        (n + 1) as u64
    }
}

/// The state of the tool after an event of the scan.
pub open spec fn app_next<P>(s: SurveyView, a: AppView<P>, event: SurveyEvent<P>) -> AppView<P> {
    match event {
        SurveyEvent::Walked(Entry::Directory) => AppView {
            dirs_scanned: count_on(a.dirs_scanned),
            ..a
        },
        SurveyEvent::Scanned(Some(project)) => AppView {
            projects: a.projects.push(project),
            ..a
        },
        SurveyEvent::Listed => AppView {
            projects: a.projects + s.unused_images(),
            scanning_done: true,
            ..a
        },
        _ => a,
    }
}

/// Whether a reply can be taken: an identifier in it can be made short.
pub open spec fn reply_fits(s: SurveyView, reply: Option<Seq<char>>) -> bool {
    s.stage is Inspecting ==> match reply {
        Some(output) => has_short_id(trimmed(output)),
        None => true,
    }
}

/// Whether the images can be listed: their names can be made, and the sizes added up.
pub open spec fn images_fit<P>(s: SurveyView, a: AppView<P>) -> bool {
    &&& images_have_names(s.images, s.names, s.ids)
    &&& total_of(a.projects) + total_of(s.unused_images::<P>()) <= u64::MAX
}

impl Survey {
    /// Begins the scan.
    pub fn new() -> (r: Survey)
        ensures
            r@ == survey_start(),
            r@.valid(),
    {
        let r = Survey {
            stage: Stage::Walking,
            images: String::new(),
            names: Vec::new(),
            asked: Vec::new(),
            inspected: 0,
            ids: Vec::new(),
        };
        assert(r@.images =~= survey_start().images);
        assert(r@.names =~= survey_start().names);
        assert(r@.asked =~= survey_start().asked);
        assert(r@.ids =~= survey_start().ids);
        r
    }

    /// What is to be done next.
    pub fn action(&self) -> (r: SurveyAction<'_>)
        requires
            self@.valid(),
        ensures
            r@ == self@.action(),
    {
        match self.stage {
            Stage::Walking => SurveyAction::NextEntry,
            Stage::Scanning => SurveyAction::ScanDirectory,
            Stage::Images => SurveyAction::Ask(Query::Images),
            Stage::Names | Stage::NamesAgain => SurveyAction::Ask(Query::Containers),
            Stage::Inspecting => {
                assert(self.asked.deep_view()[self.inspected as int]
                    == self.asked@[self.inspected as int]@);
                SurveyAction::Ask(Query::Inspect(self.asked[self.inspected].as_str()))
            },
            Stage::Listing => SurveyAction::List,
            Stage::Finished => SurveyAction::Finish,
        }
    }

    /// Takes the next entry of the walk: a directory is counted, and is to be scanned.
    pub fn walked<P>(&mut self, app: &mut App<P>, entry: Entry)
        requires
            old(self)@.valid(),
            old(self)@.action() is NextEntry,
        ensures
            final(self)@ == survey_next(old(self)@, SurveyEvent::<P>::Walked(entry)),
            final(self)@.valid(),
            final(app)@ == app_next(old(self)@, old(app)@, SurveyEvent::Walked(entry)),
            old(app)@.valid() ==> final(app)@.valid(),
    {
        match entry {
            Entry::Directory => {
                app.dir_scanned();
                self.stage = Stage::Scanning;
            },
            Entry::Failed | Entry::Other => {},
        }
    }

    /// Takes what came of scanning the directory.
    pub fn scanned<P>(&mut self, app: &mut App<P>, project: Option<Project<P>>)
        requires
            old(self)@.valid(),
            old(self)@.action() is ScanDirectory,
        ensures
            final(self)@ == survey_next(
                old(self)@,
                SurveyEvent::Scanned(project.deep_view()),
            ),
            final(self)@.valid(),
            final(app)@ == app_next(
                old(self)@,
                old(app)@,
                SurveyEvent::Scanned(project.deep_view()),
            ),
            old(app)@.valid() && old(app)@.phase is Scanning && (project matches Some(p)
                ==> total_of(old(app)@.projects) + p@.size <= u64::MAX) ==> final(app)@.valid(),
    {
        match project {
            Some(project) => {
                app.add_project(project);
            },
            None => {},
        }
        self.stage = Stage::Walking;
    }

    /// Takes that the walk is over.
    pub fn walk_ended(&mut self)
        requires
            old(self)@.valid(),
            old(self)@.action() is NextEntry,
        ensures
            final(self)@ == (SurveyView { stage: Stage::Images, ..old(self)@ }),
            final(self)@.valid(),
    {
        self.stage = Stage::Images;
    }

    /// Whether a reply can be taken.
    pub fn accepts(&self, reply: &Option<String>) -> (r: bool)
        ensures
            r == reply_fits(self@, reply.deep_view()),
    {
        match (self.stage, reply) {
            (Stage::Inspecting, Some(output)) => can_shorten(output.as_str()),
            _ => true,
        }
    }

    /// Takes what the engine printed.
    pub fn replied(&mut self, reply: Option<String>)
        requires
            old(self)@.valid(),
            old(self)@.action() is Ask,
            reply_fits(old(self)@, reply.deep_view()),
        ensures
            final(self)@ == after_reply(old(self)@, reply.deep_view()),
            final(self)@.valid(),
    {
        match self.stage {
            Stage::Images => {
                match reply {
                    Some(output) => {
                        self.images = output;
                        self.stage = Stage::Names;
                    },
                    None => {
                        self.stage = Stage::Listing;
                    },
                }
            },
            Stage::Names => {
                self.names = lines_of_reply(reply);
                self.stage = Stage::NamesAgain;
            },
            Stage::NamesAgain => {
                self.asked = lines_of_reply(reply);
                self.inspected = 0;
                self.stage = if self.asked.len() > 0 {
                    Stage::Inspecting
                } else {
                    Stage::Listing
                };
            },
            Stage::Inspecting => {
                let ghost before = self.ids.deep_view();
                if let Some(output) = &reply {
                    if let Some(id) = shorten(output.as_str()) {
                        let ghost text = id@;
                        self.ids.push(id);
                        assert(self.ids.deep_view() =~= before.push(text));
                    }
                }
                let count: usize = self.asked.len();
                self.inspected += 1;
                self.stage = if self.inspected < count {
                    Stage::Inspecting
                } else {
                    Stage::Listing
                };
            },
            _ => {},
        }
    }

    /// Whether the images can be listed.
    pub fn can_list<P>(&self, app: &App<P>) -> (r: bool)
        requires
            total_of(app@.projects) <= u64::MAX,
        ensures
            r == images_fit(self@, app@),
    {
        if !can_name_images(self.images.as_str(), &self.names, &self.ids) {
            return false;
        }
        let images: Vec<Project<P>> = scan_docker_images(
            self.images.as_str(),
            &self.names,
            &self.ids,
        );
        app.has_room(&images)
    }

    /// Lists the images that no container uses, and ends the scan.
    pub fn list<P>(&mut self, app: &mut App<P>)
        requires
            old(self)@.valid(),
            old(self)@.action() is List,
            images_have_names(old(self)@.images, old(self)@.names, old(self)@.ids),
        ensures
            final(self)@ == survey_next(old(self)@, SurveyEvent::<P>::Listed),
            final(self)@.valid(),
            final(app)@ == app_next(old(self)@, old(app)@, SurveyEvent::Listed),
            old(app)@.valid() && old(app)@.phase is Scanning && images_fit(old(self)@, old(app)@)
                ==> final(app)@.valid(),
    {
        let images: Vec<Project<P>> = scan_docker_images(
            self.images.as_str(),
            &self.names,
            &self.ids,
        );
        app.add_projects(images);
        app.finish_scan();
        self.stage = Stage::Finished;
    }
}

/// The lines of a reply.
fn lines_of_reply(reply: Option<String>) -> (r: Vec<String>)
    ensures
        r.deep_view() == reply_lines(reply.deep_view()),
{
    match reply {
        Some(output) => lines(output.as_str()),
        None => {
            let r: Vec<String> = Vec::new();
            assert(r.deep_view() =~= Seq::<Seq<char>>::empty());
            r
        },
    }
}

/// The scan and the tool after all events.
pub open spec fn survey_run<P>(
    s: SurveyView,
    a: AppView<P>,
    events: Seq<SurveyEvent<P>>,
) -> (SurveyView, AppView<P>)
    decreases events.len(),
{
    if events.len() == 0 {
        (s, a)
    } else {
        let before = survey_run(s, a, events.drop_last());
        (survey_next(before.0, events.last()), app_next(before.0, before.1, events.last()))
    }
}

/// Whether each event is what came of what was to be done.
pub open spec fn is_survey<P>(
    s: SurveyView,
    a: AppView<P>,
    events: Seq<SurveyEvent<P>>,
) -> bool
    decreases events.len(),
{
    events.len() == 0 || {
        &&& is_survey(s, a, events.drop_last())
        &&& is_awaited(survey_run(s, a, events.drop_last()).0, events.last())
    }
}

/// The list entries of the directories that were scanned, in their order.
pub open spec fn scanned_projects<P>(events: Seq<SurveyEvent<P>>) -> Seq<ProjectView<P>>
    decreases events.len(),
{
    if events.len() == 0 {
        Seq::empty()
    } else {
        let front = scanned_projects(events.drop_last());
        match events.last() {
            SurveyEvent::Scanned(Some(project)) => front.push(project),
            _ => front,
        }
    }
}

/// How many directories the walk came upon.
pub open spec fn walked_dirs<P>(events: Seq<SurveyEvent<P>>) -> nat
    decreases events.len(),
{
    if events.len() == 0 {
        0
    } else {
        walked_dirs(events.drop_last()) + if events.last() == SurveyEvent::<P>::Walked(
            Entry::Directory,
        ) {
            1nat
        } else {
            0
        }
    }
}

/// The scan lists the directories in the order of the walk, and behind them the images that no
/// container uses; it is over just when those are listed. It counts the directories, and touches
/// neither the cursor nor what the tool is doing.
pub proof fn directories_come_before_images<P>(a: AppView<P>, events: Seq<SurveyEvent<P>>)
    requires
        !a.scanning_done,
        is_survey(survey_start(), a, events),
    ensures
        ({
            let (s, b) = survey_run(survey_start(), a, events);
            &&& b.projects == a.projects + scanned_projects(events) + if s.stage is Finished {
                s.unused_images()
            } else {
                Seq::empty()
            }
            &&& b.scanning_done == (s.stage is Finished)
            &&& b.dirs_scanned == (a.dirs_scanned + walked_dirs(events)) % 0x1_0000_0000_0000_0000
            &&& b.row == a.row
            &&& b.phase == a.phase
        }),
    decreases events.len(),
{
    let (s, b) = survey_run(survey_start(), a, events);
    if events.len() == 0 {
        assert(a.projects + Seq::<ProjectView<P>>::empty() + Seq::<ProjectView<P>>::empty()
            =~= a.projects);
    } else {
        let front = events.drop_last();
        directories_come_before_images(a, front);
        let (t, c) = survey_run(survey_start(), a, front);
        let listed = a.projects + scanned_projects(front);
        assert(listed + Seq::<ProjectView<P>>::empty() =~= listed);
        assert(c.projects == listed);
        match events.last() {
            SurveyEvent::Scanned(Some(project)) => {
                assert(listed.push(project) =~= a.projects + scanned_projects(events));
                assert(b.projects + Seq::<ProjectView<P>>::empty() =~= b.projects);
            },
            _ => {},
        }
        assert(b.projects =~= a.projects + scanned_projects(events) + if s.stage is Finished {
            s.unused_images()
        } else {
            Seq::empty()
        });
    }
}

/// The identifiers of the names that `inspect` resolves, in their order.
pub open spec fn resolved(
    names: Seq<Seq<char>>,
    inspect: spec_fn(Seq<char>) -> Option<Seq<char>>,
) -> Seq<Seq<char>>
    decreases names.len(),
{
    if names.len() == 0 {
        Seq::empty()
    } else {
        with_id(resolved(names.drop_last(), inspect), inspect(names.last()))
    }
}

/// What an engine replies: `images` to the first question, `first` and `second` when asked for the
/// names, and what `inspect` says of each of those.
pub struct Engine {
    pub images: Option<Seq<char>>,
    pub first: Option<Seq<char>>,
    pub second: Option<Seq<char>>,
    pub inspect: spec_fn(Seq<char>) -> Option<Seq<char>>,
}

/// What the engine replies in a stage.
pub open spec fn reply_of(s: SurveyView, engine: Engine) -> Option<Seq<char>> {
    match s.stage {
        Stage::Images => engine.images,
        Stage::Names => engine.first,
        Stage::NamesAgain => engine.second,
        _ => (engine.inspect)(s.asked[s.inspected as int]),
    }
}

/// How many kinds of questions are left.
pub open spec fn questions_left(stage: Stage) -> nat {
    match stage {
        Stage::Images => 4,
        Stage::Names => 3,
        Stage::NamesAgain => 2,
        Stage::Inspecting => 1,
        _ => 0,
    }
}

/// The scan after all questions were put to the engine.
pub open spec fn dialogue(s: SurveyView, engine: Engine) -> SurveyView
    decreases questions_left(s.stage), s.asked.len() - s.inspected,
    when s.valid()
{
    if s.action() is Ask {
        dialogue(after_reply(s, reply_of(s, engine)), engine)
    } else {
        s
    }
}

/// After all questions the images are listed: those that the engine has, without those that its
/// containers name, and without those that the names resolve to. An engine that tells no images
/// is not asked further, and none are listed.
pub proof fn containers_are_asked_about<P>(s: SurveyView, engine: Engine)
    requires
        s == (SurveyView { stage: Stage::Images, ..survey_start() }),
    ensures
        ({
            let end = dialogue(s, engine);
            &&& end.stage is Listing
            &&& end.unused_images::<P>() == match engine.images {
                Some(images) => lines_projects::<P>(
                    lines_of(images),
                    reply_lines(engine.first),
                    resolved(reply_lines(engine.second), engine.inspect),
                ),
                None => Seq::empty(),
            }
        }),
{
    reveal_with_fuel(dialogue, 4);
    match engine.images {
        Some(images) => {
            let t = after_reply(s, engine.images);
            let u = after_reply(t, engine.first);
            let v = after_reply(u, engine.second);
            assert(v.asked.take(0) =~= Seq::<Seq<char>>::empty());
            lemma_inspections(v, engine);
        },
        None => {
            assert(lines_of(Seq::empty()) =~= Seq::<Seq<char>>::empty());
        },
    }
}

proof fn lemma_inspections(s: SurveyView, engine: Engine)
    requires
        s.stage == inspect_stage(s.inspected < s.asked.len()),
        s.inspected <= s.asked.len(),
        s.ids == resolved(s.asked.take(s.inspected as int), engine.inspect),
    ensures
        dialogue(s, engine) == (SurveyView {
            stage: Stage::Listing,
            inspected: s.asked.len(),
            ids: resolved(s.asked, engine.inspect),
            ..s
        }),
    decreases s.asked.len() - s.inspected,
{
    if s.inspected < s.asked.len() {
        let next = after_reply(s, reply_of(s, engine));
        let i = s.inspected as int;
        assert(s.asked.take(i + 1).drop_last() =~= s.asked.take(i));
        lemma_inspections(next, engine);
    } else {
        assert(s.asked.take(s.inspected as int) =~= s.asked);
    }
}

/// The walk goes on behind every entry: one that is no directory, or cannot be read, is passed over; a
/// directory is scanned first. Only when the walk is over is the engine asked.
pub proof fn the_walk_goes_on<P>(s: SurveyView, found: Option<ProjectView<P>>)
    ensures
        s.action() is NextEntry ==> {
            &&& survey_next(s, SurveyEvent::<P>::Walked(Entry::Failed)) == s
            &&& survey_next(s, SurveyEvent::<P>::Walked(Entry::Other)) == s
            &&& survey_next(s, SurveyEvent::<P>::Walked(Entry::Directory)).action() is ScanDirectory
            &&& survey_next(s, SurveyEvent::<P>::WalkEnded).action() == SurveyActionView::Ask(
                QueryView::Images,
            )
        },
        s.action() is ScanDirectory ==> survey_next(s, SurveyEvent::Scanned(found)).action() is NextEntry,
        s.action() is List ==> survey_next(s, SurveyEvent::<P>::Listed).action() is Finish,
{
}

/// The identifiers in use are the short forms of what the engine tells of the names, and all of them.
pub proof fn names_resolve_to_their_identifiers(
    names: Seq<Seq<char>>,
    inspect: spec_fn(Seq<char>) -> Option<Seq<char>>,
    id: Seq<char>,
)
    ensures
        resolved(names, inspect).contains(id) <==> exists|k: int|
            0 <= k < names.len() && inspect(#[trigger] names[k]) is Some && short_id(
                trimmed(inspect(names[k])->0),
            ) == Some(id),
    decreases names.len(),
{
    if names.len() > 0 {
        let front = names.drop_last();
        let before = resolved(front, inspect);
        let all = resolved(names, inspect);
        let n = names.len() - 1;
        names_resolve_to_their_identifiers(front, inspect, id);
        assert(names[n] == names.last());
        if before.contains(id) {
            let k = choose|k: int|
                0 <= k < front.len() && inspect(#[trigger] front[k]) is Some && short_id(
                    trimmed(inspect(front[k])->0),
                ) == Some(id);
            assert(names[k] == front[k]);
            let i = choose|i: int| 0 <= i < before.len() && before[i] == id;
            assert(all[i] == id);
        }
        if all.contains(id) && !before.contains(id) {
            let i = choose|i: int| 0 <= i < all.len() && all[i] == id;
            if i < before.len() {
                assert(before[i] == id);
            }
        }
        if exists|k: int|
            0 <= k < names.len() && inspect(#[trigger] names[k]) is Some && short_id(
                trimmed(inspect(names[k])->0),
            ) == Some(id) {
            let k = choose|k: int|
                0 <= k < names.len() && inspect(#[trigger] names[k]) is Some && short_id(
                    trimmed(inspect(names[k])->0),
                ) == Some(id);
            if k < n {
                assert(front[k] == names[k]);
            } else {
                assert(all[all.len() - 1] == id);
            }
        }
    }
}

/// A name is resolved by asking about that name.
pub proof fn names_are_asked_for(name: Seq<char>)
    ensures
        query_arguments(QueryView::Inspect(name)).len() == 4,
        query_arguments(QueryView::Inspect(name)).last() == name,
        query_arguments(QueryView::Inspect(name)).first() == "inspect"@,
{
}

/// A reply can always be taken, but for an identifier that cannot be made short.
pub proof fn replies_can_be_taken(s: SurveyView, output: Seq<char>)
    ensures
        reply_fits(s, None),
        !(s.stage is Inspecting) ==> reply_fits(s, Some(output)),
        s.stage is Inspecting ==> (reply_fits(s, Some(output)) <==> has_short_id(trimmed(output))),
{
}

} // verus!
