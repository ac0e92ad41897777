//! How projects are recognised, and which directories of theirs can be deleted.

use crate::project::Color;
use crate::text::begins;
use crate::text::begins_with;
use crate::text::chars_of;
use crate::text::endings_are_backs;
use crate::text::ends;
use crate::text::ends_with;
use crate::text::same_text;
use crate::text::text_between;
use vstd::prelude::*;

verus! {

/// A language: the files that mark a project of it, and the directories that hold what can be
/// made again.
pub struct LangRule {
    pub name: &'static str,
    pub markers: Vec<&'static str>,
    pub dep_dirs: Vec<&'static str>,
    pub color: Color,
}

/// A language rule as a value.
pub struct LangRuleView {
    pub name: Seq<char>,
    pub markers: Seq<Seq<char>>,
    pub dep_dirs: Seq<Seq<char>>,
    pub color: Color,
}

impl View for LangRule {
    type V = LangRuleView;

    open spec fn view(&self) -> LangRuleView {
        LangRuleView {
            name: self.name@,
            markers: self.markers.deep_view(),
            dep_dirs: self.dep_dirs.deep_view(),
            color: self.color,
        }
    }
}

impl DeepView for LangRule {
    type V = LangRuleView;

    open spec fn deep_view(&self) -> LangRuleView {
        self.view()
    }
}

/// The languages that are known, in the order in which they are tried.
pub open spec fn known_rules() -> Seq<LangRuleView> {
    seq![
        LangRuleView {
            name: "Rust"@,
            markers: seq!["Cargo.toml"@],
            dep_dirs: seq!["target"@],
            color: Color::Red,
        },
        LangRuleView {
            name: "Node.js"@,
            markers: seq!["package.json"@],
            dep_dirs: seq!["node_modules"@],
            color: Color::Green,
        },
        LangRuleView {
            name: "Python"@,
            markers: seq!["pyproject.toml"@, "setup.py"@, "requirements.txt"@],
            dep_dirs: seq!["venv"@, ".venv"@, "__pycache__"@],
            color: Color::Yellow,
        },
        LangRuleView {
            name: "Java"@,
            markers: seq!["build.gradle"@, "build.gradle.kts"@, "pom.xml"@],
            dep_dirs: seq!["build"@, ".gradle"@, "target"@],
            color: Color::Cyan,
        },
        LangRuleView {
            name: "Go"@,
            markers: seq!["go.mod"@],
            dep_dirs: seq!["vendor"@],
            color: Color::Blue,
        },
        LangRuleView {
            name: "C/C++"@,
            markers: seq!["CMakeLists.txt"@],
            dep_dirs: seq!["build"@],
            color: Color::Magenta,
        },
        LangRuleView {
            name: ".NET"@,
            markers: seq!["*.csproj"@, "*.sln"@],
            dep_dirs: seq!["bin"@, "obj"@],
            color: Color::LightCyan,
        },
    ]
}

fn rule(
    name: &'static str,
    markers: Vec<&'static str>,
    dep_dirs: Vec<&'static str>,
    color: Color,
) -> (r: LangRule)
    ensures
        r@ == (LangRuleView {
            name: name@,
            markers: markers.deep_view(),
            dep_dirs: dep_dirs.deep_view(),
            color,
        }),
{
    LangRule { name, markers, dep_dirs, color }
}

fn one(a: &'static str) -> (r: Vec<&'static str>)
    ensures
        r.deep_view() == seq![a@],
{
    let r = vec![a];
    assert(r.deep_view() =~= seq![a@]);
    r
}

fn two(a: &'static str, b: &'static str) -> (r: Vec<&'static str>)
    ensures
        r.deep_view() == seq![a@, b@],
{
    let r = vec![a, b];
    assert(r.deep_view() =~= seq![a@, b@]);
    r
}

fn three(a: &'static str, b: &'static str, c: &'static str) -> (r: Vec<&'static str>)
    ensures
        r.deep_view() == seq![a@, b@, c@],
{
    let r = vec![a, b, c];
    assert(r.deep_view() =~= seq![a@, b@, c@]);
    r
}

/// The languages that are known, in the order in which they are tried.
pub fn lang_rules() -> (r: Vec<LangRule>)
    ensures
        r.deep_view() == known_rules(),
{
    let r = vec![
        rule("Rust", one("Cargo.toml"), one("target"), Color::Red),
        rule("Node.js", one("package.json"), one("node_modules"), Color::Green),
        rule(
            "Python",
            three("pyproject.toml", "setup.py", "requirements.txt"),
            three("venv", ".venv", "__pycache__"),
            Color::Yellow,
        ),
        rule(
            "Java",
            three("build.gradle", "build.gradle.kts", "pom.xml"),
            three("build", ".gradle", "target"),
            Color::Cyan,
        ),
        rule("Go", one("go.mod"), one("vendor"), Color::Blue),
        rule("C/C++", one("CMakeLists.txt"), one("build"), Color::Magenta),
        rule(".NET", two("*.csproj", "*.sln"), two("bin", "obj"), Color::LightCyan),
    ];
    assert(r.deep_view() =~= known_rules());
    r
}

/// The names of directories that are not walked into, besides the hidden ones.
pub open spec fn skipped_names() -> Seq<Seq<char>> {
    seq![
        "node_modules"@,
        "target"@,
        "__pycache__"@,
        "venv"@,
        ".venv"@,
        ".gradle"@,
        "vendor"@,
        "bin"@,
        "obj"@,
        "build"@,
    ]
}

/// Whether the walk goes on at an entry of this name that it comes upon: it is not hidden, and it
/// is not a directory of dependencies.
pub open spec fn is_walked(name: Seq<char>) -> bool {
    !begins(name, seq!['.']) && !skipped_names().contains(name)
}

/// Whether the walk goes on at an entry of this name; a name that is no text counts as empty. The
/// directory where the walk begins is walked whatever its name.
pub fn walks_into(name: Option<&str>, is_root: bool) -> (r: bool)
    ensures
        r == (is_root || is_walked(
            match name {
                Some(name) => name@,
                None => Seq::empty(),
            },
        )),
{
    if is_root {
        return true;
    }
    match name {
        None => {
            proof {
                reveal_skipped_names();
            }
            true
        },
        Some(name) => {
            let v = chars_of(name);
            proof {
                reveal_skipped_names();
                reveal_strlit(".");
                assert("."@ =~= seq!['.']);
                assert(forall|i: int|
                    0 <= i < skipped_names().len() ==> skipped_names().contains(
                        #[trigger] skipped_names()[i],
                    ));
            }
            !begins_with(&v, ".") && !same_text(name, "node_modules") && !same_text(name, "target")
                && !same_text(name, "__pycache__") && !same_text(name, "venv") && !same_text(
                name,
                ".venv",
            ) && !same_text(name, ".gradle") && !same_text(name, "vendor") && !same_text(
                name,
                "bin",
            ) && !same_text(name, "obj") && !same_text(name, "build")
        },
    }
}

proof fn reveal_skipped_names()
    ensures
        !skipped_names().contains(Seq::empty()),
        skipped_names().len() == 10,
        skipped_names()[0] == "node_modules"@,
        skipped_names()[1] == "target"@,
        skipped_names()[2] == "__pycache__"@,
        skipped_names()[3] == "venv"@,
        skipped_names()[4] == ".venv"@,
        skipped_names()[5] == ".gradle"@,
        skipped_names()[6] == "vendor"@,
        skipped_names()[7] == "bin"@,
        skipped_names()[8] == "obj"@,
        skipped_names()[9] == "build"@,
{
    reveal_strlit("node_modules");
    reveal_strlit("target");
    reveal_strlit("__pycache__");
    reveal_strlit("venv");
    reveal_strlit(".venv");
    reveal_strlit(".gradle");
    reveal_strlit("vendor");
    reveal_strlit("bin");
    reveal_strlit("obj");
    reveal_strlit("build");
    assert(forall|i: int| 0 <= i < skipped_names().len() ==> (#[trigger] skipped_names()[i]).len() > 0);
}

/// No directory of dependencies that a rule names is walked into, unless the walk begins there.
pub proof fn dependency_directories_are_not_walked(rule: int, dir: int)
    requires
        0 <= rule < known_rules().len(),
        0 <= dir < known_rules()[rule].dep_dirs.len(),
    ensures
        !is_walked(known_rules()[rule].dep_dirs[dir]),
{
    reveal_skipped_names();
    assert(forall|i: int|
        0 <= i < skipped_names().len() ==> skipped_names().contains(#[trigger] skipped_names()[i]));
}

/// How a marker is looked for in a directory.
pub enum MarkerTest {
    /// There is an entry of just this name.
    Exact,
    /// There is an entry whose name ends like this.
    Suffix(String),
}

/// Whether a marker stands for all names with a given ending.
pub open spec fn is_pattern(marker: Seq<char>) -> bool {
    marker.len() > 0 && marker[0] == '*'
}

/// Says how a marker is looked for.
pub fn marker_test(marker: &str) -> (r: MarkerTest)
    ensures
        match r {
            MarkerTest::Suffix(ending) => is_pattern(marker@) && ending@ == marker@.skip(1),
            MarkerTest::Exact => !is_pattern(marker@),
        },
{
    let v = chars_of(marker);
    if v.len() > 0 && v[0] == '*' {
        let ending = text_between(&v, 1, v.len());
        assert(ending@ =~= marker@.skip(1));
        MarkerTest::Suffix(ending)
    } else {
        MarkerTest::Exact
    }
}

/// Whether a directory has a marker: `exists` says whether it has an entry of just that name,
/// and `names` are the names of its entries, as far as they are text.
pub open spec fn has_marker(marker: Seq<char>, exists: bool, names: Seq<Option<Seq<char>>>) -> bool {
    if is_pattern(marker) {
        exists|i: int|
            0 <= i < names.len() && (#[trigger] names[i]) is Some && ends(
                names[i]->0,
                marker.skip(1),
            )
    } else {
        exists
    }
}

/// Whether a directory has a marker. Only one of `exists` and `names` matters: which, says
/// `marker_test`.
pub fn matches_marker(marker: &str, exists: bool, names: &Vec<Option<String>>) -> (r: bool)
    ensures
        r == has_marker(marker@, exists, names.deep_view()),
{
    match marker_test(marker) {
        MarkerTest::Exact => exists,
        MarkerTest::Suffix(ending) => {
            let mut i: usize = 0;
            while i < names.len()
                invariant
                    i <= names@.len(),
                    ending@ == marker@.skip(1),
                    is_pattern(marker@),
                    forall|j: int|
                        0 <= j < i ==> !((#[trigger] names.deep_view()[j]) is Some && ends(
                            names.deep_view()[j]->0,
                            marker@.skip(1),
                        )),
                decreases names@.len() - i,
            {
                let ghost seen = names.deep_view()[i as int];
                if let Some(name) = &names[i] {
                    if ends_with(&chars_of(name.as_str()), ending.as_str()) {
                        assert(seen is Some);
                        return true;
                    }
                }
                i += 1;
            }
            false
        },
    }
}

/// Whether some marker of a rule is answered with yes.
pub open spec fn rule_holds(rule: LangRuleView, answer: spec_fn(Seq<char>) -> bool) -> bool {
    exists|i: int| 0 <= i < rule.markers.len() && answer(#[trigger] rule.markers[i])
}

/// Whether `r` is the first rule some marker of which is answered with yes.
pub open spec fn is_first_rule(
    rules: Seq<LangRuleView>,
    answer: spec_fn(Seq<char>) -> bool,
    r: int,
) -> bool {
    &&& 0 <= r < rules.len()
    &&& rule_holds(rules[r], answer)
    &&& forall|i: int| 0 <= i < r ==> !rule_holds(#[trigger] rules[i], answer)
}

/// How far the search for the rule of a directory has come.
pub struct ProbeView {
    /// The rule that is being tried.
    pub rule: int,
    /// Its marker that is asked for next.
    pub marker: int,
    /// Whether the rule was found.
    pub found: bool,
}

/// The search before any question.
pub open spec fn probe_start() -> ProbeView {
    ProbeView { rule: 0, marker: 0, found: false }
}

/// Whether the search goes on: there is a marker left to ask for.
pub open spec fn probe_open(rules: Seq<LangRuleView>, s: ProbeView) -> bool {
    !s.found && 0 <= s.rule < rules.len() && 0 <= s.marker < rules[s.rule].markers.len()
}

/// The search after an answer. The first marker that is there decides; a rule without one gives
/// way to the next rule.
pub open spec fn probe_next(rules: Seq<LangRuleView>, s: ProbeView, yes: bool) -> ProbeView {
    if yes {
        ProbeView { found: true, ..s }
    } else if s.marker + 1 < rules[s.rule].markers.len() {
        ProbeView { marker: s.marker + 1, ..s }
    } else {
        ProbeView { rule: s.rule + 1, marker: 0, ..s }
    }
}

/// The search carried to its end, when each marker is answered as `answer` says.
pub open spec fn probe_end(
    rules: Seq<LangRuleView>,
    s: ProbeView,
    answer: spec_fn(Seq<char>) -> bool,
) -> ProbeView
    decreases rules.len() - s.rule, rules[s.rule].markers.len() - s.marker, !s.found as int,
{
    if probe_open(rules, s) {
        probe_end(rules, probe_next(rules, s, answer(rules[s.rule].markers[s.marker])), answer)
    } else {
        s
    }
}

/// Every rule has a marker.
pub open spec fn rules_valid(rules: Seq<LangRuleView>) -> bool {
    forall|i: int| 0 <= i < rules.len() ==> (#[trigger] rules[i]).markers.len() > 0
}

/// The rules that are known have markers.
pub proof fn known_rules_are_valid()
    ensures
        rules_valid(known_rules()),
{
}

/// A directory gets the first rule that it has a marker of, and none where it has no marker of
/// any rule.
pub proof fn first_rule_wins(rules: Seq<LangRuleView>, answer: spec_fn(Seq<char>) -> bool)
    requires
        rules_valid(rules),
    ensures
        ({
            let end = probe_end(rules, probe_start(), answer);
            if end.found {
                is_first_rule(rules, answer, end.rule)
            } else {
                forall|i: int| 0 <= i < rules.len() ==> !rule_holds(#[trigger] rules[i], answer)
            }
        }),
{
    lemma_probe(rules, probe_start(), answer);
}

proof fn lemma_probe(
    rules: Seq<LangRuleView>,
    s: ProbeView,
    answer: spec_fn(Seq<char>) -> bool,
)
    requires
        rules_valid(rules),
        !s.found,
        0 <= s.rule <= rules.len(),
        s.rule < rules.len() ==> 0 <= s.marker < rules[s.rule].markers.len(),
        forall|i: int| 0 <= i < s.rule ==> !rule_holds(#[trigger] rules[i], answer),
        s.rule < rules.len() ==> forall|j: int|
            0 <= j < s.marker ==> !answer(#[trigger] rules[s.rule].markers[j]),
    ensures
        ({
            let end = probe_end(rules, s, answer);
            if end.found {
                is_first_rule(rules, answer, end.rule)
            } else {
                forall|i: int| 0 <= i < rules.len() ==> !rule_holds(#[trigger] rules[i], answer)
            }
        }),
    decreases rules.len() - s.rule, rules[s.rule].markers.len() - s.marker,
{
    if s.rule < rules.len() {
        let yes = answer(rules[s.rule].markers[s.marker]);
        let next = probe_next(rules, s, yes);
        if !yes {
            lemma_probe(rules, next, answer);
        }
    }
}

/// The search for the rule of a directory: it names a marker, and is told whether the directory
/// has it.
pub struct RuleProbe<'a> {
    pub rules: &'a Vec<LangRule>,
    pub rule: usize,
    pub marker: usize,
    pub found: bool,
}

impl<'a> View for RuleProbe<'a> {
    type V = ProbeView;

    open spec fn view(&self) -> ProbeView {
        ProbeView { rule: self.rule as int, marker: self.marker as int, found: self.found }
    }
}

impl<'a> RuleProbe<'a> {
    /// Begins the search.
    pub fn new(rules: &'a Vec<LangRule>) -> (r: RuleProbe<'a>)
        ensures
            r@ == probe_start(),
            r.rules == rules,
    {
        RuleProbe { rules, rule: 0, marker: 0, found: false }
    }

    /// The marker that is asked for next; `None` when the search is over.
    pub fn question(&self) -> (r: Option<&'static str>)
        ensures
            match r {
                Some(marker) => probe_open(self.rules.deep_view(), self@) && marker@
                    == self.rules.deep_view()[self.rule as int].markers[self.marker as int],
                None => !probe_open(self.rules.deep_view(), self@),
            },
    {
        if self.found || self.rule >= self.rules.len() {
            return None;
        }
        let rule = &self.rules[self.rule];
        assert(self.rules.deep_view()[self.rule as int] == rule@);
        if self.marker >= rule.markers.len() {
            return None;
        }
        let marker: &'static str = rule.markers[self.marker];
        Some(marker)
    }

    /// Takes the answer to the last question.
    pub fn answer(&mut self, yes: bool)
        requires
            probe_open(old(self).rules.deep_view(), old(self)@),
        ensures
            final(self)@ == probe_next(old(self).rules.deep_view(), old(self)@, yes),
            final(self).rules == old(self).rules,
    {
        let rule = &self.rules[self.rule];
        assert(self.rules.deep_view()[self.rule as int] == rule@);
        let rules_count: usize = self.rules.len();
        let markers_count: usize = rule.markers.len();
        assert(self.rule < rules_count && self.marker < markers_count);
        if yes {
            self.found = true;
        } else if self.marker + 1 < markers_count {
            self.marker += 1;
        } else {
            self.rule += 1;
            self.marker = 0;
        }
    }

    /// The rule that was found; `None` where none was.
    pub fn result(&self) -> (r: Option<&'a LangRule>)
        ensures
            match r {
                Some(rule) => self.found && self.rule < self.rules@.len() && rule@
                    == self.rules.deep_view()[self.rule as int],
                None => !(self.found && self.rule < self.rules@.len()),
            },
    {
        if self.found && self.rule < self.rules.len() {
            Some(&self.rules[self.rule])
        } else {
            None
        }
    }
}

/// Every entry is walked whose name does not begin with a dot and is not that of a directory of
/// dependencies of any known language.
pub proof fn ordinary_directories_are_walked(name: Seq<char>)
    requires
        !(name.len() > 0 && name[0] == '.'),
        forall|rule: int, dir: int|
            0 <= rule < known_rules().len() && 0 <= dir < known_rules()[rule].dep_dirs.len()
                ==> name != #[trigger] known_rules()[rule].dep_dirs[dir],
    ensures
        is_walked(name),
{
    reveal_skipped_names();
    reveal_strlit(".venv");
    reveal_strlit(".gradle");
    let r = known_rules();
    assert(r[1].dep_dirs[0] == "node_modules"@);
    assert(r[0].dep_dirs[0] == "target"@);
    assert(r[2].dep_dirs[0] == "venv"@ && r[2].dep_dirs[2] == "__pycache__"@);
    assert(r[4].dep_dirs[0] == "vendor"@);
    assert(r[6].dep_dirs[0] == "bin"@ && r[6].dep_dirs[1] == "obj"@);
    assert(r[3].dep_dirs[0] == "build"@);
    if begins(name, seq!['.']) {
        assert(name.take(1)[0] == '.');
    }
    assert(".venv"@[0] == '.' && ".gradle"@[0] == '.');
    assert forall|i: int| 0 <= i < skipped_names().len() implies name != #[trigger] skipped_names()[i] by {}
}

/// No hidden entry is walked.
pub proof fn hidden_entries_are_not_walked(rest: Seq<char>)
    ensures
        !is_walked(seq!['.'] + rest),
{
    assert((seq!['.'] + rest).take(1) =~= seq!['.']);
}

/// A marker that begins with a star stands for all names with what follows the star at their end:
/// a directory has it where one of its entries has such a name.
pub proof fn stars_stand_for_any_beginning(
    ending: Seq<char>,
    exists: bool,
    names: Seq<Option<Seq<char>>>,
)
    ensures
        has_marker(seq!['*'] + ending, exists, names) <==> exists|i: int, front: Seq<char>|
            0 <= i < names.len() && #[trigger] names[i] == Some(#[trigger] (front + ending)),
{
    let marker = seq!['*'] + ending;
    assert(marker.skip(1) =~= ending);
    assert(marker[0] == '*');
    if has_marker(marker, exists, names) {
        let i = choose|i: int|
            0 <= i < names.len() && (#[trigger] names[i]) is Some && ends(
                names[i]->0,
                marker.skip(1),
            );
        endings_are_backs(names[i]->0, ending);
        let front = choose|front: Seq<char>| names[i]->0 == #[trigger] (front + ending);
        assert(names[i] == Some(front + ending));
    }
    assert forall|i: int, front: Seq<char>|
        0 <= i < names.len() && #[trigger] names[i] == Some(#[trigger] (front + ending)) implies has_marker(
        marker,
        exists,
        names,
    ) by {
        endings_are_backs(front + ending, ending);
        assert(names[i] is Some && ends(names[i]->0, marker.skip(1)));
    }
}

/// A marker without a star is the name of an entry, and nothing else about the directory matters.
pub proof fn other_markers_are_names(
    marker: Seq<char>,
    exists: bool,
    names: Seq<Option<Seq<char>>>,
)
    requires
        forall|ending: Seq<char>| marker != #[trigger] (seq!['*'] + ending),
    ensures
        has_marker(marker, exists, names) == exists,
{
    if is_pattern(marker) {
        assert(marker =~= seq!['*'] + marker.skip(1));
    }
}

/// A directory that has any marker of a rule, and none of an earlier one, gets that rule; with no
/// marker of any rule it gets none.
pub proof fn any_marker_will_do(
    rules: Seq<LangRuleView>,
    answer: spec_fn(Seq<char>) -> bool,
    r: int,
    m: int,
)
    requires
        forall|i: int| 0 <= i < rules.len() ==> (#[trigger] rules[i]).markers.len() > 0,
        0 <= r <= rules.len(),
        r < rules.len() ==> 0 <= m < rules[r].markers.len() && answer(rules[r].markers[m]),
        forall|i: int, j: int|
            0 <= i < r && 0 <= j < rules[i].markers.len() ==> !answer(
                #[trigger] rules[i].markers[j],
            ),
    ensures
        probe_end(rules, probe_start(), answer).found <==> r < rules.len(),
        r < rules.len() ==> probe_end(rules, probe_start(), answer).rule == r,
{
    first_rule_wins(rules, answer);
    let end = probe_end(rules, probe_start(), answer);
    assert forall|i: int| 0 <= i < r implies !rule_holds(#[trigger] rules[i], answer) by {
        if rule_holds(rules[i], answer) {
            let j = choose|j: int|
                0 <= j < rules[i].markers.len() && answer(#[trigger] rules[i].markers[j]);
            assert(!answer(rules[i].markers[j]));
        }
    }
    if r < rules.len() {
        assert(answer(rules[r].markers[m]));
        assert(rule_holds(rules[r], answer));
    }
}

} // verus!
