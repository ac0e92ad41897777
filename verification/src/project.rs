//! What the tool lists: projects, and what can be cleaned of each.

use vstd::prelude::*;

verus! {

/// The colours that the screens use.
#[derive(Clone, Copy, Debug, PartialEq, Eq, Structural)]
pub enum Color {
    Red,
    Green,
    Yellow,
    Cyan,
    Blue,
    Magenta,
    LightBlue,
    LightCyan,
    White,
    DarkGray,
}

/// What is deleted when a project is cleaned. Paths are of any type `P`: nothing here looks
/// into them.
#[derive(Clone, Debug)]
pub enum CleanTarget<P> {
    /// Directories with all that they hold.
    Directories(Vec<P>),
    /// A container image.
    DockerImage { id: String },
}

/// A clean target as a value.
pub enum TargetView<P> {
    Directories(Seq<P>),
    DockerImage { id: Seq<char> },
}

impl<P> View for CleanTarget<P> {
    type V = TargetView<P>;

    open spec fn view(&self) -> TargetView<P> {
        match self {
            CleanTarget::Directories(dirs) => TargetView::Directories(dirs@),
            CleanTarget::DockerImage { id } => TargetView::DockerImage { id: id@ },
        }
    }
}

/// A line of the list: a project directory, or a container image.
#[derive(Clone, Debug)]
pub struct Project<P> {
    pub display_name: String,
    pub lang: &'static str,
    pub lang_color: Color,
    pub target: CleanTarget<P>,
    /// How many bytes cleaning it frees.
    pub size: u64,
    /// Whether it is chosen for cleaning.
    pub selected: bool,
}

/// A project as a value.
pub struct ProjectView<P> {
    pub display_name: Seq<char>,
    pub lang: Seq<char>,
    pub lang_color: Color,
    pub target: TargetView<P>,
    pub size: u64,
    pub selected: bool,
}

impl<P> View for Project<P> {
    type V = ProjectView<P>;

    open spec fn view(&self) -> ProjectView<P> {
        ProjectView {
            display_name: self.display_name@,
            lang: self.lang@,
            lang_color: self.lang_color,
            target: self.target@,
            size: self.size,
            selected: self.selected,
        }
    }
}

impl<P> DeepView for Project<P> {
    type V = ProjectView<P>;

    open spec fn deep_view(&self) -> ProjectView<P> {
        self.view()
    }
}

/// How many single deletions cleaning a target takes.
pub open spec fn items_in<P>(target: TargetView<P>) -> nat {
    match target {
        TargetView::Directories(dirs) => dirs.len(),
        TargetView::DockerImage { .. } => 1,
    }
}

impl<P> CleanTarget<P> {
    /// How many single deletions cleaning this target takes.
    pub fn items(&self) -> (n: usize)
        ensures
            n == items_in(self@),
    {
        match self {
            CleanTarget::Directories(dirs) => dirs.len(),
            CleanTarget::DockerImage { .. } => 1,
        }
    }
}

} // verus!
