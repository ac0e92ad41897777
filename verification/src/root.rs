//! Where the scan begins.

use crate::text::beginnings_are_fronts;
use crate::text::begins;
use crate::text::begins_with;
use crate::text::chars_of;
use crate::text::same_text;
use crate::text::text_between;
use vstd::prelude::*;

verus! {

/// Where the scan begins.
pub enum Root {
    /// In the current directory.
    Current,
    /// In the home directory.
    Home,
    /// At this path below the home directory.
    BelowHome(String),
    /// At this path.
    Given(String),
}

/// Where the scan begins, as a value.
pub enum RootView {
    Current,
    Home,
    BelowHome(Seq<char>),
    Given(Seq<char>),
}

impl View for Root {
    type V = RootView;

    open spec fn view(&self) -> RootView {
        match self {
            Root::Current => RootView::Current,
            Root::Home => RootView::Home,
            Root::BelowHome(path) => RootView::BelowHome(path@),
            Root::Given(path) => RootView::Given(path@),
        }
    }
}

/// Where the scan begins when the tool is started with the given argument: `~` stands for the
/// home directory.
pub open spec fn root_for(argument: Option<Seq<char>>) -> RootView {
    match argument {
        None => RootView::Current,
        Some(s) => if s == "~"@ {
            RootView::Home
        } else if begins(s, "~/"@) {
            RootView::BelowHome(s.skip(2))
        } else {
            RootView::Given(s)
        },
    }
}

/// Where the scan begins when the tool is started with the given argument.
pub fn choose_root(argument: Option<String>) -> (r: Root)
    ensures
        r@ == root_for(argument.deep_view()),
{
    match argument {
        None => Root::Current,
        Some(s) => {
            if same_text(s.as_str(), "~") {
                return Root::Home;
            }
            let v = chars_of(s.as_str());
            if begins_with(&v, "~/") {
                proof {
                    reveal_strlit("~/");
                }
                let path = text_between(&v, 2, v.len());
                assert(path@ =~= s@.skip(2));
                Root::BelowHome(path)
            } else {
                Root::Given(s)
            }
        },
    }
}

/// What follows `~/` is a path below the home directory.
pub proof fn tilde_stands_for_home(path: Seq<char>)
    ensures
        root_for(Some("~/"@ + path)) == RootView::BelowHome(path),
        root_for(Some("~"@)) == RootView::Home,
{
    reveal_strlit("~/");
    reveal_strlit("~");
    let s = "~/"@ + path;
    assert(s.len() >= 2);
    assert(s.take(2) =~= "~/"@);
    assert(s.skip(2) =~= path);
}

/// Every other argument is the path itself; without one the scan begins in the current directory.
pub proof fn other_arguments_are_paths(s: Seq<char>)
    requires
        s != "~"@,
        forall|path: Seq<char>| s != #[trigger] ("~/"@ + path),
    ensures
        root_for(Some(s)) == RootView::Given(s),
        root_for(None) == RootView::Current,
{
    beginnings_are_fronts(s, "~/"@);
}

} // verus!
