//! Measuring directories, and making list entries of what was found in a project.

use crate::project::CleanTarget;
use crate::project::Project;
use crate::project::ProjectView;
use crate::project::TargetView;
use crate::rules::any_marker_will_do;
use crate::rules::first_rule_wins;
use crate::rules::is_first_rule;
use crate::rules::probe_end;
use crate::rules::probe_next;
use crate::rules::probe_open;
use crate::rules::probe_start;
use crate::rules::rule_holds;
use crate::rules::rules_valid;
use crate::rules::LangRule;
use crate::rules::LangRuleView;
use crate::rules::ProbeView;
use crate::rules::RuleProbe;
use crate::text::begins;
use crate::text::first_occurrence_is_replaced;
use crate::text::replace;
use crate::text::replaced;
use crate::text::replacing_nothing_changes_nothing;
use crate::text::same_text;
use vstd::prelude::*;

verus! {

/// What a walk through a directory came upon.
#[derive(Clone, Copy, Debug, PartialEq, Eq, Structural)]
pub enum Walked {
    /// An entry that could not be read.
    Failed,
    /// A directory, a link, or anything else that is no file.
    NotFile,
    /// A file, with its length where that could be read.
    File { len: Option<u64> },
}

/// How many bytes an entry adds to the size of its directory.
pub open spec fn bytes_of(entry: Walked) -> u64 {
    match entry {
        Walked::File { len: Some(len) } => len,
        _ => 0,
    }
}

/// The size of a directory: the sum of the lengths of its files.
pub open spec fn total_bytes(entries: Seq<Walked>) -> nat
    decreases entries.len(),
{
    if entries.len() == 0 {
        0
    } else {
        total_bytes(entries.drop_last()) + bytes_of(entries.last()) as nat
    }
}

/// How many bytes an entry adds to the size of its directory.
pub fn counted_bytes(entry: Walked) -> (r: u64)
    ensures
        r == bytes_of(entry),
{
    match entry {
        Walked::File { len: Some(len) } => len,
        _ => 0,
    }
}

proof fn lemma_total_bytes_grows(entries: Seq<Walked>, i: int)
    requires
        0 <= i <= entries.len(),
    ensures
        total_bytes(entries.take(i)) <= total_bytes(entries),
    decreases entries.len(),
{
    if i == entries.len() {
        assert(entries.take(i) =~= entries);
    } else {
        lemma_total_bytes_grows(entries.drop_last(), i);
        assert(entries.drop_last().take(i) =~= entries.take(i));
    }
}

/// The size of a directory, from what a walk through it came upon.
pub fn dir_size(entries: &Vec<Walked>) -> (r: u64)
    requires
        total_bytes(entries@) <= u64::MAX,
    ensures
        r == total_bytes(entries@),
{
    let mut sum: u64 = 0;
    let mut i: usize = 0;
    while i < entries.len()
        invariant
            i <= entries@.len(),
            sum == total_bytes(entries@.take(i as int)),
            total_bytes(entries@) <= u64::MAX,
        decreases entries@.len() - i,
    {
        proof {
            lemma_total_bytes_grows(entries@, i + 1);
            assert(entries@.take(i + 1).drop_last() =~= entries@.take(i as int));
        }
        sum += counted_bytes(entries[i]);
        i += 1;
    }
    assert(entries@.take(i as int) =~= entries@);
    sum
}

/// Where directories of dependencies of a given name are looked for.
#[derive(Clone, Copy, Debug, PartialEq, Eq, Structural)]
pub enum DepSearch {
    /// In the project directory itself.
    Direct,
    /// Anywhere below the project directory.
    Nested,
}

/// Where directories of dependencies of a given name are looked for: caches may be anywhere.
pub open spec fn search_of(name: Seq<char>) -> DepSearch {
    if name == "__pycache__"@ {
        DepSearch::Nested
    } else {
        DepSearch::Direct
    }
}

/// Says where directories of dependencies of a given name are looked for.
pub fn dep_search(name: &str) -> (r: DepSearch)
    ensures
        r == search_of(name@),
{
    if same_text(name, "__pycache__") {
        DepSearch::Nested
    } else {
        DepSearch::Direct
    }
}

/// Whether an entry below a project directory is one of the directories that are looked for: a
/// directory of just that name. A name that is no text is none of them.
pub fn is_searched(is_dir: bool, entry: Option<&str>, name: &str) -> (r: bool)
    ensures
        r == (is_dir && entry.deep_view() == Some(name@)),
{
    match entry {
        Some(entry) => is_dir && same_text(entry, name),
        None => false,
    }
}

/// The path of a project as it is listed: the home directory is written as `~`, and a path that is no
/// text is empty.
pub open spec fn listed_path(dir: Option<Seq<char>>, home: Seq<char>) -> Seq<char> {
    match dir {
        Some(dir) => replaced(dir, home, "~"@),
        None => replaced(""@, home, "~"@),
    }
}

/// The path of a project as it is listed, with the home directory written short.
pub fn short_path(dir: Option<&str>, home: &str) -> (r: String)
    ensures
        r@ == replaced(
            match dir {
                Some(dir) => dir@,
                None => ""@,
            },
            home@,
            "~"@,
        ),
        r@ == listed_path(dir.deep_view(), home@),
{
    let dir = match dir {
        Some(dir) => dir,
        None => "",
    };
    replace(dir, home, "~")
}

/// Where something lies below a project directory: the names that lead to it.
pub type Place = Seq<Seq<u8>>;

/// A directory of dependencies that was found.
pub struct Found<P> {
    pub dir: P,
    /// The names that lead to it from the project directory.
    pub place: Vec<Vec<u8>>,
    /// How many bytes its files take.
    pub size: u64,
}

/// A directory of dependencies that was found, as a value.
pub struct FoundView<P> {
    pub dir: P,
    pub place: Place,
    pub size: u64,
}

impl<P> View for Found<P> {
    type V = FoundView<P>;

    open spec fn view(&self) -> FoundView<P> {
        FoundView { dir: self.dir, place: self.place.deep_view(), size: self.size }
    }
}

impl<P> DeepView for Found<P> {
    type V = FoundView<P>;

    open spec fn deep_view(&self) -> FoundView<P> {
        self.view()
    }
}

/// Whether `inner` lies at or below `outer`.
pub open spec fn lies_in(inner: Place, outer: Place) -> bool {
    outer.len() <= inner.len() && inner.take(outer.len() as int) == outer
}

/// Whether the directory at `i` lies in the one at `j`, and that one has anything to delete. Of two
/// in the same place the earlier one holds the later.
pub open spec fn is_held<P>(found: Seq<FoundView<P>>, i: int, j: int) -> bool {
    &&& found[j].size > 0
    &&& lies_in(found[i].place, found[j].place)
    &&& found[j].place.len() < found[i].place.len() || j < i
}

/// Whether the directory at `i` counts: it holds anything, and lies in no other one that does.
pub open spec fn counts<P>(found: Seq<FoundView<P>>, i: int) -> bool {
    found[i].size > 0 && forall|j: int| 0 <= j < found.len() ==> !#[trigger] is_held(found, i, j)
}

/// Those of the first `n` directories that count, in their order.
pub open spec fn counted_before<P>(found: Seq<FoundView<P>>, n: int) -> Seq<FoundView<P>>
    decreases n,
{
    if n <= 0 {
        Seq::empty()
    } else if counts(found, n - 1) {
        counted_before(found, n - 1).push(found[n - 1])
    } else {
        counted_before(found, n - 1)
    }
}

/// The directories that count, in their order.
pub open spec fn counted<P>(found: Seq<FoundView<P>>) -> Seq<FoundView<P>> {
    counted_before(found, found.len() as int)
}

/// The directories that hold anything, in their order.
pub open spec fn filled<P>(found: Seq<FoundView<P>>) -> Seq<FoundView<P>>
    decreases found.len(),
{
    if found.len() == 0 {
        Seq::empty()
    } else if found.last().size > 0 {
        filled(found.drop_last()).push(found.last())
    } else {
        filled(found.drop_last())
    }
}

/// The paths of directories.
pub open spec fn dirs_of<P>(found: Seq<FoundView<P>>) -> Seq<P> {
    found.map_values(|f: FoundView<P>| f.dir)
}

/// The sum of the sizes.
pub open spec fn sum_of_sizes<P>(found: Seq<FoundView<P>>) -> nat
    decreases found.len(),
{
    if found.len() == 0 {
        0
    } else {
        sum_of_sizes(found.drop_last()) + found.last().size as nat
    }
}

/// The list entry of a project directory: there is one where a directory of dependencies holds
/// anything. All that hold anything are to be deleted; to the size, what lies in another one of them
/// adds nothing.
pub open spec fn found_project<P>(
    rule: LangRuleView,
    display_name: Seq<char>,
    found: Seq<FoundView<P>>,
) -> Option<ProjectView<P>> {
    if filled(found).len() == 0 {
        None
    } else {
        Some(
            ProjectView {
                display_name,
                lang: rule.name,
                lang_color: rule.color,
                target: TargetView::Directories(dirs_of(filled(found))),
                size: sum_of_sizes(counted(found)) as u64,
                selected: false,
            },
        )
    }
}

/// What lies in two directories lies in one of them by way of the other.
proof fn lemma_lies_in_both(file: Place, a: Place, b: Place)
    requires
        lies_in(file, a),
        lies_in(file, b),
        a.len() <= b.len(),
    ensures
        lies_in(b, a),
{
    assert(b.take(a.len() as int) =~= file.take(a.len() as int));
}

/// No file counts twice: it lies in at most one of the directories that count.
pub proof fn no_file_counts_twice<P>(found: Seq<FoundView<P>>, file: Place, i: int, j: int)
    requires
        0 <= i < found.len(),
        0 <= j < found.len(),
        counts(found, i),
        counts(found, j),
        lies_in(file, found[i].place),
        lies_in(file, found[j].place),
    ensures
        i == j,
{
    let a = found[i].place;
    let b = found[j].place;
    if a.len() <= b.len() {
        lemma_lies_in_both(file, a, b);
    }
    if b.len() <= a.len() {
        lemma_lies_in_both(file, b, a);
    }
    assert(!is_held(found, i, j));
    assert(!is_held(found, j, i));
}

/// Every file that lies in a directory that was found, and that holds anything, lies in one that
/// counts.
pub proof fn every_file_counts<P>(found: Seq<FoundView<P>>, file: Place, i: int) -> (k: int)
    requires
        0 <= i < found.len(),
        found[i].size > 0,
        lies_in(file, found[i].place),
    ensures
        0 <= k < found.len(),
        counts(found, k),
        lies_in(file, found[k].place),
    decreases found[i].place.len(), i,
{
    if counts(found, i) {
        i
    } else {
        let j = choose|j: int| 0 <= j < found.len() && #[trigger] is_held(found, i, j);
        let outer = found[j].place;
        assert(file.take(outer.len() as int) =~= found[i].place.take(outer.len() as int)) by {
            assert(file.take(found[i].place.len() as int) == found[i].place);
        }
        every_file_counts(found, file, j)
    }
}

/// The bytes of the files that lie in a directory.
pub open spec fn bytes_in(files: Seq<(Place, u64)>, dir: Place) -> nat
    decreases files.len(),
{
    if files.len() == 0 {
        0
    } else {
        bytes_in(files.drop_last(), dir) + if lies_in(files.last().0, dir) {
            files.last().1 as nat
        } else {
            0
        }
    }
}

/// Whether a file lies in one of the directories.
pub open spec fn is_in_any<P>(file: Place, found: Seq<FoundView<P>>) -> bool {
    exists|i: int| 0 <= i < found.len() && lies_in(file, (#[trigger] found[i]).place)
}

/// The bytes of the files that lie in one of the directories, each file once.
pub open spec fn bytes_in_any<P>(files: Seq<(Place, u64)>, found: Seq<FoundView<P>>) -> nat
    decreases files.len(),
{
    if files.len() == 0 {
        0
    } else {
        bytes_in_any(files.drop_last(), found) + if is_in_any(files.last().0, found) {
            files.last().1 as nat
        } else {
            0
        }
    }
}

/// Whether no file lies in two of the directories.
spec fn are_apart<P>(found: Seq<FoundView<P>>) -> bool {
    forall|i: int, j: int, file: Place|
        0 <= i < found.len() && 0 <= j < found.len() && #[trigger] lies_in(file, found[i].place)
            && #[trigger] lies_in(file, found[j].place) ==> i == j
}

proof fn lemma_one_more_dir<P>(
    files: Seq<(Place, u64)>,
    front: Seq<FoundView<P>>,
    last: FoundView<P>,
)
    requires
        are_apart(front.push(last)),
    ensures
        bytes_in_any(files, front.push(last)) == bytes_in_any(files, front) + bytes_in(
            files,
            last.place,
        ),
    decreases files.len(),
{
    if files.len() > 0 {
        lemma_one_more_dir(files.drop_last(), front, last);
        let file = files.last().0;
        let all = front.push(last);
        let n = front.len() as int;
        if is_in_any(file, front) {
            let i = choose|i: int| 0 <= i < n && lies_in(file, (#[trigger] front[i]).place);
            assert(lies_in(file, all[i].place));
            if lies_in(file, last.place) {
                assert(lies_in(file, all[n].place));
            }
        } else if lies_in(file, last.place) {
            assert(lies_in(file, all[n].place));
        } else {
            assert forall|i: int| 0 <= i < all.len() implies !lies_in(
                file,
                (#[trigger] all[i]).place,
            ) by {
                if i < n {
                    assert(all[i] == front[i]);
                }
            }
        }
    }
}

proof fn lemma_sum_apart<P>(files: Seq<(Place, u64)>, found: Seq<FoundView<P>>)
    requires
        are_apart(found),
        forall|i: int|
            0 <= i < found.len() ==> (#[trigger] found[i]).size == bytes_in(files, found[i].place),
    ensures
        sum_of_sizes(found) == bytes_in_any(files, found),
    decreases found.len(),
{
    if found.len() == 0 {
        lemma_nowhere(files, found);
    } else {
        let front = found.drop_last();
        assert(front.push(found.last()) =~= found);
        assert forall|i: int, j: int, file: Place|
            0 <= i < front.len() && 0 <= j < front.len() && #[trigger] lies_in(
                file,
                front[i].place,
            ) && #[trigger] lies_in(file, front[j].place) implies i == j by {
            assert(lies_in(file, found[i].place) && lies_in(file, found[j].place));
        }
        lemma_sum_apart(files, front);
        lemma_one_more_dir(files, front, found.last());
    }
}

proof fn lemma_nowhere<P>(files: Seq<(Place, u64)>, found: Seq<FoundView<P>>)
    requires
        found.len() == 0,
    ensures
        bytes_in_any(files, found) == 0,
    decreases files.len(),
{
    if files.len() > 0 {
        lemma_nowhere(files.drop_last(), found);
    }
}

/// Each of the counted directories is one of those that were found, and counts.
proof fn lemma_counted_from<P>(found: Seq<FoundView<P>>, n: int, k: int) -> (i: int)
    requires
        0 <= n <= found.len(),
        0 <= k < counted_before(found, n).len(),
    ensures
        0 <= i < n,
        counts(found, i),
        counted_before(found, n)[k] == found[i],
    decreases n,
{
    if k < counted_before(found, n - 1).len() {
        lemma_counted_from(found, n - 1, k)
    } else {
        n - 1
    }
}

proof fn lemma_counted_has<P>(found: Seq<FoundView<P>>, n: int, i: int) -> (k: int)
    requires
        0 <= i < n <= found.len(),
        counts(found, i),
    ensures
        0 <= k < counted_before(found, n).len(),
        counted_before(found, n)[k] == found[i],
    decreases n,
{
    if i == n - 1 {
        counted_before(found, n).len() - 1
    } else {
        lemma_counted_has(found, n - 1, i)
    }
}

proof fn lemma_counted_apart<P>(found: Seq<FoundView<P>>, n: int)
    requires
        0 <= n <= found.len(),
    ensures
        are_apart(counted_before(found, n)),
    decreases n,
{
    if n > 0 {
        lemma_counted_apart(found, n - 1);
        let front = counted_before(found, n - 1);
        let all = counted_before(found, n);
        assert forall|i: int, j: int, file: Place|
            0 <= i < all.len() && 0 <= j < all.len() && #[trigger] lies_in(file, all[i].place)
                && #[trigger] lies_in(file, all[j].place) implies i == j by {
            if i < front.len() && j < front.len() {
                assert(lies_in(file, front[i].place) && lies_in(file, front[j].place));
            } else if i < front.len() {
                let o = lemma_counted_from(found, n - 1, i);
                no_file_counts_twice(found, file, o, n - 1);
            } else if j < front.len() {
                let o = lemma_counted_from(found, n - 1, j);
                no_file_counts_twice(found, file, o, n - 1);
            }
        }
    }
}

proof fn lemma_bytes_at_least(files: Seq<(Place, u64)>, dir: Place, w: int)
    requires
        0 <= w < files.len(),
        lies_in(files[w].0, dir),
    ensures
        bytes_in(files, dir) >= files[w].1,
    decreases files.len(),
{
    if w < files.len() - 1 {
        lemma_bytes_at_least(files.drop_last(), dir, w);
    }
}

/// Leaving out what does not count loses no file that has any bytes.
proof fn lemma_counted_bytes<P>(files: Seq<(Place, u64)>, found: Seq<FoundView<P>>, n: int)
    requires
        0 <= n <= files.len(),
        forall|i: int|
            0 <= i < found.len() ==> (#[trigger] found[i]).size == bytes_in(files, found[i].place),
    ensures
        bytes_in_any(files.take(n), counted(found)) == bytes_in_any(files.take(n), found),
    decreases n,
{
    if n > 0 {
        lemma_counted_bytes(files, found, n - 1);
        assert(files.take(n).drop_last() =~= files.take(n - 1));
        let file = files[n - 1].0;
        let kept = counted(found);
        if is_in_any(file, kept) {
            let k = choose|k: int| 0 <= k < kept.len() && lies_in(file, (#[trigger] kept[k]).place);
            let i = lemma_counted_from(found, found.len() as int, k);
            assert(lies_in(file, found[i].place));
        } else if is_in_any(file, found) && files[n - 1].1 > 0 {
            let i = choose|i: int|
                0 <= i < found.len() && lies_in(file, (#[trigger] found[i]).place);
            lemma_bytes_at_least(files, found[i].place, n - 1);
            let o = every_file_counts(found, file, i);
            let k = lemma_counted_has(found, found.len() as int, o);
            assert(lies_in(file, kept[k].place));
        }
    }
}

/// The size of a project is the space that its dependencies take: where each directory was measured
/// by its files, it is the bytes of the files that lie in any directory that was found, each file
/// once.
pub proof fn size_is_that_of_the_files<P>(files: Seq<(Place, u64)>, found: Seq<FoundView<P>>)
    requires
        forall|i: int|
            0 <= i < found.len() ==> (#[trigger] found[i]).size == bytes_in(files, found[i].place),
    ensures
        sum_of_sizes(counted(found)) == bytes_in_any(files, found),
{
    let kept = counted(found);
    lemma_counted_apart(found, found.len() as int);
    assert forall|k: int| 0 <= k < kept.len() implies (#[trigger] kept[k]).size == bytes_in(
        files,
        kept[k].place,
    ) by {
        let i = lemma_counted_from(found, found.len() as int, k);
        assert(found[i].size == bytes_in(files, found[i].place));
    }
    lemma_sum_apart(files, kept);
    lemma_counted_bytes(files, found, files.len() as int);
    assert(files.take(files.len() as int) =~= files);
}

proof fn lemma_counted_grows<P>(found: Seq<FoundView<P>>, m: int, n: int)
    requires
        0 <= m <= n <= found.len(),
    ensures
        sum_of_sizes(counted_before(found, m)) <= sum_of_sizes(counted_before(found, n)),
    decreases n - m,
{
    if m < n {
        lemma_counted_grows(found, m, n - 1);
        let front = counted_before(found, n - 1);
        assert(front.push(found[n - 1]).drop_last() =~= front);
    }
}

/// Whether two names are the same.
fn same_name(a: &Vec<u8>, b: &Vec<u8>) -> (r: bool)
    ensures
        r == (a@ == b@),
{
    if a.len() != b.len() {
        return false;
    }
    let mut i: usize = 0;
    while i < a.len()
        invariant
            i <= a@.len(),
            a@.len() == b@.len(),
            forall|j: int| 0 <= j < i ==> a@[j] == b@[j],
        decreases a@.len() - i,
    {
        if a[i] != b[i] {
            return false;
        }
        i += 1;
    }
    assert(a@ =~= b@);
    true
}

/// Whether `inner` lies at or below `outer`.
fn is_below(inner: &Vec<Vec<u8>>, outer: &Vec<Vec<u8>>) -> (r: bool)
    ensures
        r == lies_in(inner.deep_view(), outer.deep_view()),
{
    let ghost a = inner.deep_view();
    let ghost b = outer.deep_view();
    if outer.len() > inner.len() {
        return false;
    }
    let mut i: usize = 0;
    while i < outer.len()
        invariant
            i <= outer@.len() <= inner@.len(),
            a == inner.deep_view(),
            b == outer.deep_view(),
            forall|j: int| 0 <= j < i ==> a[j] == b[j],
        decreases outer@.len() - i,
    {
        assert(a[i as int] =~= inner@[i as int]@);
        assert(b[i as int] =~= outer@[i as int]@);
        if !same_name(&inner[i], &outer[i]) {
            assert(a.take(b.len() as int)[i as int] == a[i as int]);
            return false;
        }
        i += 1;
    }
    assert(a.take(b.len() as int) =~= b);
    true
}

/// Whether the directory at `i` counts.
fn does_count<P>(found: &Vec<Found<P>>, i: usize) -> (r: bool)
    requires
        i < found@.len(),
    ensures
        r == counts(found.deep_view(), i as int),
{
    let ghost all = found.deep_view();
    assert(all[i as int] == found@[i as int]@);
    if found[i].size == 0 {
        return false;
    }
    let mut j: usize = 0;
    while j < found.len()
        invariant
            i < found@.len(),
            j <= found@.len(),
            all == found.deep_view(),
            forall|k: int| 0 <= k < j ==> !#[trigger] is_held(all, i as int, k),
        decreases found@.len() - j,
    {
        assert(all[i as int] == found@[i as int]@);
        assert(all[j as int] == found@[j as int]@);
        if found[j].size > 0 && (found[j].place.len() < found[i].place.len() || j < i) && is_below(
            &found[i].place,
            &found[j].place,
        ) {
            assert(is_held(all, i as int, j as int));
            return false;
        }
        j += 1;
    }
    true
}

/// Makes the list entry of a project directory from the directories of dependencies that were
/// found.
pub fn collect_project<P>(rule: &LangRule, display_name: String, found: Vec<Found<P>>) -> (r: Option<
    Project<P>,
>)
    requires
        sum_of_sizes(counted(found.deep_view())) <= u64::MAX,
    ensures
        match r {
            Some(project) => found_project(rule@, display_name@, found.deep_view()) == Some(
                project@,
            ),
            None => found_project(rule@, display_name@, found.deep_view()) is None,
        },
{
    let ghost all = found.deep_view();
    let ghost given = found@;
    let n = found.len();
    let mut keep: Vec<bool> = Vec::new();
    let mut i: usize = 0;
    while i < n
        invariant
            i <= n,
            n == found@.len(),
            all == found.deep_view(),
            keep@.len() == i,
            forall|k: int| 0 <= k < i ==> #[trigger] keep@[k] == counts(all, k),
        decreases n - i,
    {
        keep.push(does_count(&found, i));
        i += 1;
    }
    let mut dirs: Vec<P> = Vec::new();
    let mut size: u64 = 0;
    let mut at: usize = 0;
    assert(dirs@ =~= dirs_of(filled(all.take(0))));
    for entry in it: found
        invariant
            it.seq() == given,
            all == given.map_values(|f: Found<P>| f@),
            at == it.index(),
            n == given.len(),
            keep@.len() == n,
            forall|k: int| 0 <= k < n ==> #[trigger] keep@[k] == counts(all, k),
            sum_of_sizes(counted(all)) <= u64::MAX,
            dirs@ == dirs_of(filled(all.take(at as int))),
            size == sum_of_sizes(counted_before(all, at as int)),
    {
        let ghost front = counted_before(all, at as int);
        let ghost seen = filled(all.take(at as int));
        proof {
            assert(all[at as int] == entry@);
            assert(all.take(at + 1).drop_last() =~= all.take(at as int));
            lemma_counted_grows(all, at + 1, n as int);
            assert(front.push(entry@).drop_last() =~= front);
        }
        if keep[at] {
            size += entry.size;
        }
        if entry.size > 0 {
            dirs.push(entry.dir);
            assert(dirs@ =~= dirs_of(seen.push(entry@)));
        }
        at += 1;
    }
    assert(all.take(n as int) =~= all);
    if dirs.len() == 0 {
        None
    } else {
        Some(
            Project {
                display_name,
                lang: rule.name,
                lang_color: rule.color,
                target: CleanTarget::Directories(dirs),
                size,
                selected: false,
            },
        )
    }
}

/// A project directory that is listed has something to delete, and it is not chosen yet. One is
/// left out only where no directory that was found holds anything.
pub proof fn found_projects_have_something_to_free<P>(
    rule: LangRuleView,
    display_name: Seq<char>,
    found: Seq<FoundView<P>>,
)
    requires
        sum_of_sizes(counted(found)) <= u64::MAX,
    ensures
        match found_project(rule, display_name, found) {
            Some(project) => {
                &&& project.size > 0
                &&& project.size == sum_of_sizes(counted(found))
                &&& !project.selected
                &&& project.target matches TargetView::Directories(dirs) && dirs.len() > 0
            },
            None => forall|i: int| 0 <= i < found.len() ==> (#[trigger] found[i]).size == 0,
        },
{
    let kept = counted(found);
    lemma_filled(found);
    if filled(found).len() > 0 {
        let i = choose|i: int| 0 <= i < found.len() && (#[trigger] found[i]).size > 0;
        assert(found[i].place.take(found[i].place.len() as int) =~= found[i].place);
        let o = every_file_counts(found, found[i].place, i);
        let k = lemma_counted_has(found, found.len() as int, o);
        let l = lemma_counted_from(found, found.len() as int, kept.len() - 1);
        assert(kept.last().size > 0);
    }
}

proof fn lemma_filled<P>(found: Seq<FoundView<P>>)
    ensures
        filled(found).len() > 0 <==> exists|i: int|
            0 <= i < found.len() && (#[trigger] found[i]).size > 0,
    decreases found.len(),
{
    if found.len() > 0 {
        let front = found.drop_last();
        lemma_filled(front);
        if filled(front).len() > 0 {
            let i = choose|i: int| 0 <= i < front.len() && (#[trigger] front[i]).size > 0;
            assert(found[i].size > 0);
        } else {
            assert forall|i: int| 0 <= i < found.len() - 1 implies (#[trigger] found[i]).size == 0 by {
                assert(front[i].size == 0);
            }
        }
        assert(found[found.len() - 1] == found.last());
    }
}

/// What is to be done next for a directory that is being scanned.
pub enum ScanAction {
    /// Find out whether the directory has this marker.
    AskMarker(&'static str),
    /// Find the directories of dependencies of this name, and measure them.
    Look { name: &'static str, search: DepSearch },
    /// Nothing.
    Finish,
}

/// What is to be done next, as a value.
pub enum ActionView {
    AskMarker(Seq<char>),
    Look { name: Seq<char>, search: DepSearch },
    Finish,
}

impl View for ScanAction {
    type V = ActionView;

    open spec fn view(&self) -> ActionView {
        match self {
            ScanAction::AskMarker(marker) => ActionView::AskMarker(marker@),
            ScanAction::Look { name, search } => ActionView::Look { name: name@, search: *search },
            ScanAction::Finish => ActionView::Finish,
        }
    }
}

/// How far the scan of a directory has come.
pub struct ScanView<P> {
    /// The search for the rule.
    pub probe: ProbeView,
    /// How many of the rule's directory names were looked for.
    pub dep: int,
    /// What was found so far.
    pub found: Seq<FoundView<P>>,
}

/// The scan before anything was done.
pub open spec fn scan_start<P>() -> ScanView<P> {
    ScanView { probe: probe_start(), dep: 0, found: Seq::empty() }
}

/// The rule that the scan found.
pub open spec fn scan_rule<P>(rules: Seq<LangRuleView>, s: ScanView<P>) -> Option<LangRuleView> {
    if s.probe.found && 0 <= s.probe.rule < rules.len() {
        Some(rules[s.probe.rule])
    } else {
        None
    }
}

/// What is to be done next: first the rule is searched for, then its directories.
pub open spec fn scan_action<P>(rules: Seq<LangRuleView>, s: ScanView<P>) -> ActionView {
    if probe_open(rules, s.probe) {
        ActionView::AskMarker(rules[s.probe.rule].markers[s.probe.marker])
    } else {
        match scan_rule(rules, s) {
            Some(rule) if 0 <= s.dep < rule.dep_dirs.len() => ActionView::Look {
                name: rule.dep_dirs[s.dep],
                search: search_of(rule.dep_dirs[s.dep]),
            },
            _ => ActionView::Finish,
        }
    }
}

/// The scan after it was said whether there is the marker.
pub open spec fn scan_answered<P>(
    rules: Seq<LangRuleView>,
    s: ScanView<P>,
    yes: bool,
) -> ScanView<P> {
    ScanView { probe: probe_next(rules, s.probe, yes), ..s }
}

/// The scan after directories were looked for.
pub open spec fn scan_looked<P>(s: ScanView<P>, more: Seq<FoundView<P>>) -> ScanView<P> {
    ScanView { dep: s.dep + 1, found: s.found + more, ..s }
}

/// The scan of one directory: it says what is to be done, and is told what came of it.
pub struct DirScan<'a, P> {
    pub probe: RuleProbe<'a>,
    pub dep: usize,
    pub found: Vec<Found<P>>,
}

impl<'a, P> View for DirScan<'a, P> {
    type V = ScanView<P>;

    open spec fn view(&self) -> ScanView<P> {
        ScanView { probe: self.probe@, dep: self.dep as int, found: self.found.deep_view() }
    }
}

impl<'a, P> DirScan<'a, P> {
    /// The rules that are tried.
    pub open spec fn rules(&self) -> Seq<LangRuleView> {
        self.probe.rules.deep_view()
    }

    /// Begins the scan of a directory.
    pub fn new(rules: &'a Vec<LangRule>) -> (r: DirScan<'a, P>)
        ensures
            r@ == scan_start::<P>(),
            r.rules() == rules.deep_view(),
    {
        let r = DirScan { probe: RuleProbe::new(rules), dep: 0, found: Vec::new() };
        assert(r@.found =~= Seq::<FoundView<P>>::empty());
        r
    }

    /// What is to be done next.
    pub fn next(&self) -> (r: ScanAction)
        ensures
            r@ == scan_action(self.rules(), self@),
    {
        match self.probe.question() {
            Some(marker) => ScanAction::AskMarker(marker),
            None => match self.probe.result() {
                Some(rule) => {
                    if self.dep < rule.dep_dirs.len() {
                        let name: &'static str = rule.dep_dirs[self.dep];
                        ScanAction::Look { name, search: dep_search(name) }
                    } else {
                        ScanAction::Finish
                    }
                },
                None => ScanAction::Finish,
            },
        }
    }

    /// Takes the answer to whether the directory has the marker that was asked for.
    pub fn answer(&mut self, yes: bool)
        requires
            scan_action(old(self).rules(), old(self)@) is AskMarker,
        ensures
            final(self)@ == scan_answered(old(self).rules(), old(self)@, yes),
            final(self).rules() == old(self).rules(),
    {
        self.probe.answer(yes);
    }

    /// Takes the directories that were found.
    pub fn looked(&mut self, found: Vec<Found<P>>)
        requires
            scan_action(old(self).rules(), old(self)@) is Look,
        ensures
            final(self)@ == scan_looked(old(self)@, found.deep_view()),
            final(self).rules() == old(self).rules(),
    {
        let mut more = found;
        proof {
            let rule = self.rules()[self.probe.rule as int];
            assert(rule == self.probe.rules@[self.probe.rule as int]@);
        }
        let limit: usize = self.probe.rules[self.probe.rule].dep_dirs.len();
        assert(self.dep < limit);
        self.dep += 1;
        self.found.append(&mut more);
        assert(self@.found =~= old(self)@.found + found.deep_view());
    }

    /// Ends the scan: makes the list entry, where there is one.
    pub fn finish(self, display_name: String) -> (r: Option<Project<P>>)
        requires
            sum_of_sizes(counted(self@.found)) <= u64::MAX,
        ensures
            match r {
                Some(project) => scan_entry(self.rules(), self@, display_name@) == Some(project@),
                None => scan_entry(self.rules(), self@, display_name@) is None,
            },
    {
        match self.probe.result() {
            Some(rule) => collect_project(rule, display_name, self.found),
            None => None,
        }
    }
}

/// The list entry that a scan leads to.
pub open spec fn scan_entry<P>(
    rules: Seq<LangRuleView>,
    s: ScanView<P>,
    display_name: Seq<char>,
) -> Option<ProjectView<P>> {
    match scan_rule(rules, s) {
        Some(rule) => found_project(rule, display_name, s.found),
        None => None,
    }
}

/// The scan carried to its end, when markers are answered as `answer` says and looking for
/// directories of a name finds what `look` says.
pub open spec fn scan_end<P>(
    rules: Seq<LangRuleView>,
    s: ScanView<P>,
    answer: spec_fn(Seq<char>) -> bool,
    look: spec_fn(Seq<char>) -> Seq<FoundView<P>>,
) -> ScanView<P>
    decreases
            rules.len() - s.probe.rule,
            rules[s.probe.rule].markers.len() - s.probe.marker,
            !s.probe.found as int,
            rules[s.probe.rule].dep_dirs.len() - s.dep,
{
    match scan_action(rules, s) {
        ActionView::AskMarker(marker) => scan_end(
            rules,
            scan_answered(rules, s, answer(marker)),
            answer,
            look,
        ),
        ActionView::Look { name, .. } => scan_end(rules, scan_looked(s, look(name)), answer, look),
        ActionView::Finish => s,
    }
}

/// All that is found of the given names, in their order.
pub open spec fn all_found<P>(
    names: Seq<Seq<char>>,
    look: spec_fn(Seq<char>) -> Seq<FoundView<P>>,
) -> Seq<FoundView<P>>
    decreases names.len(),
{
    if names.len() == 0 {
        Seq::empty()
    } else {
        all_found(names.drop_last(), look) + look(names.last())
    }
}

/// A scan ends with the first rule that the directory has a marker of, and with all that was
/// found of that rule's directories, in the rule's order. Without such a rule it ends with
/// nothing.
pub proof fn scan_finds_first_rule<P>(
    rules: Seq<LangRuleView>,
    display_name: Seq<char>,
    answer: spec_fn(Seq<char>) -> bool,
    look: spec_fn(Seq<char>) -> Seq<FoundView<P>>,
)
    requires
        rules_valid(rules),
    ensures
        ({
            let entry = scan_entry(
                rules,
                scan_end(rules, scan_start(), answer, look),
                display_name,
            );
            ||| exists|r: int|
                #[trigger] is_first_rule(rules, answer, r) && entry == found_project(
                    rules[r],
                    display_name,
                    all_found(rules[r].dep_dirs, look),
                )
            ||| entry is None && forall|i: int|
                0 <= i < rules.len() ==> !rule_holds(#[trigger] rules[i], answer)
        }),
{
    let start = scan_start::<P>();
    lemma_scan_probe(rules, start, answer, look);
    first_rule_wins(rules, answer);
    let probe = probe_end(rules, probe_start(), answer);
    lemma_probe_end_closed(rules, probe_start(), answer);
    let mid = ScanView { probe, ..start };
    if probe.found {
        let r = probe.rule;
        assert(is_first_rule(rules, answer, r));
        assert(rules[r].dep_dirs.take(0) =~= Seq::<Seq<char>>::empty());
        lemma_scan_look(rules, mid, answer, look);
    }
}

proof fn lemma_probe_end_closed(
    rules: Seq<LangRuleView>,
    s: ProbeView,
    answer: spec_fn(Seq<char>) -> bool,
)
    ensures
        !probe_open(rules, probe_end(rules, s, answer)),
    decreases rules.len() - s.rule, rules[s.rule].markers.len() - s.marker, !s.found as int,
{
    if probe_open(rules, s) {
        lemma_probe_end_closed(
            rules,
            probe_next(rules, s, answer(rules[s.rule].markers[s.marker])),
            answer,
        );
    }
}

/// The scan goes on from the end of the search for the rule.
proof fn lemma_scan_probe<P>(
    rules: Seq<LangRuleView>,
    s: ScanView<P>,
    answer: spec_fn(Seq<char>) -> bool,
    look: spec_fn(Seq<char>) -> Seq<FoundView<P>>,
)
    ensures
        scan_end(rules, s, answer, look) == scan_end(
            rules,
            (ScanView { probe: probe_end(rules, s.probe, answer), ..s }),
            answer,
            look,
        ),
    decreases
            rules.len() - s.probe.rule,
            rules[s.probe.rule].markers.len() - s.probe.marker,
            !s.probe.found as int,
{
    if probe_open(rules, s.probe) {
        let yes = answer(rules[s.probe.rule].markers[s.probe.marker]);
        lemma_scan_probe(rules, scan_answered(rules, s, yes), answer, look);
    }
}

proof fn lemma_scan_look<P>(
    rules: Seq<LangRuleView>,
    s: ScanView<P>,
    answer: spec_fn(Seq<char>) -> bool,
    look: spec_fn(Seq<char>) -> Seq<FoundView<P>>,
)
    requires
        s.probe.found,
        0 <= s.probe.rule < rules.len(),
        0 <= s.dep <= rules[s.probe.rule].dep_dirs.len(),
        s.found == all_found(rules[s.probe.rule].dep_dirs.take(s.dep), look),
    ensures
        ({
            let end = scan_end(rules, s, answer, look);
            end.probe == s.probe && end.found == all_found(rules[s.probe.rule].dep_dirs, look)
        }),
    decreases rules[s.probe.rule].dep_dirs.len() - s.dep,
{
    let names = rules[s.probe.rule].dep_dirs;
    if s.dep < names.len() {
        assert(names.take(s.dep + 1).drop_last() =~= names.take(s.dep));
        lemma_scan_look(rules, scan_looked(s, look(names[s.dep])), answer, look);
    } else {
        assert(names.take(s.dep) =~= names);
    }
}

/// The size of a directory adds up over the walk through it, however the walk is divided.
pub proof fn sizes_add_up(a: Seq<Walked>, b: Seq<Walked>)
    ensures
        total_bytes(a + b) == total_bytes(a) + total_bytes(b),
    decreases b.len(),
{
    if b.len() == 0 {
        assert(a + b =~= a);
    } else {
        sizes_add_up(a, b.drop_last());
        assert((a + b).drop_last() =~= a + b.drop_last());
        assert((a + b).last() == b.last());
    }
}

/// A file adds its whole length to the size; what is no file, or cannot be read, adds nothing.
pub proof fn files_count_with_their_length(entry: Walked)
    ensures
        total_bytes(seq![entry]) == match entry {
            Walked::File { len: Some(len) } => len as nat,
            Walked::File { len: None } | Walked::NotFile | Walked::Failed => 0,
        },
{
    assert(seq![entry].drop_last() =~= Seq::<Walked>::empty());
    assert(total_bytes(Seq::<Walked>::empty()) == 0);
    assert(seq![entry].last() == entry);
}

/// Only caches are looked for anywhere below a project directory.
pub proof fn only_caches_may_be_anywhere(name: Seq<char>)
    ensures
        search_of(name) == DepSearch::Nested <==> name == "__pycache__"@,
{
}

/// A path that leads through the home directory is listed with `~` in its place; one that does not is
/// listed as it is.
pub proof fn home_is_written_short(home: Seq<char>, rest: Seq<char>)
    requires
        home.len() > 0,
        forall|i: int| 0 <= i <= rest.len() ==> !begins(#[trigger] rest.skip(i), home),
    ensures
        listed_path(Some(home + rest), home) == "~"@ + rest,
        listed_path(Some(rest), home) == rest,
        listed_path(None, home).len() == 0,
{
    reveal_strlit("");
    let none = Seq::<char>::empty();
    first_occurrence_is_replaced(none, home, rest, "~"@);
    replacing_nothing_changes_nothing(rest, home, "~"@);
    assert(none + home + rest =~= home + rest);
    assert(none + "~"@ =~= "~"@);
}

/// Something lies in a directory just where its path goes on from that of the directory.
pub proof fn paths_lead_into_directories(inner: Place, outer: Place)
    ensures
        lies_in(inner, outer) <==> exists|rest: Place| inner == #[trigger] (outer + rest),
{
    if lies_in(inner, outer) {
        assert(inner =~= outer + inner.skip(outer.len() as int));
    }
    assert forall|rest: Place| inner == #[trigger] (outer + rest) implies lies_in(inner, outer) by {
        assert(inner.take(outer.len() as int) =~= outer);
    }
}

/// The bytes in a directory, and those in any of several, add up over the files, however these are
/// divided; a file counts with its length where it lies in the directory, or in any of them.
pub proof fn bytes_add_up<P>(
    a: Seq<(Place, u64)>,
    b: Seq<(Place, u64)>,
    file: (Place, u64),
    dir: Place,
    found: Seq<FoundView<P>>,
)
    ensures
        bytes_in(a + b, dir) == bytes_in(a, dir) + bytes_in(b, dir),
        bytes_in_any(a + b, found) == bytes_in_any(a, found) + bytes_in_any(b, found),
        lies_in(file.0, dir) ==> bytes_in(seq![file], dir) == file.1,
        !lies_in(file.0, dir) ==> bytes_in(seq![file], dir) == 0,
        (exists|i: int| 0 <= i < found.len() && lies_in(file.0, (#[trigger] found[i]).place))
            ==> bytes_in_any(seq![file], found) == file.1,
        (forall|i: int| 0 <= i < found.len() ==> !lies_in(file.0, (#[trigger] found[i]).place))
            ==> bytes_in_any(seq![file], found) == 0,
    decreases b.len(),
{
    let none = Seq::<(Place, u64)>::empty();
    assert(seq![file].drop_last() =~= none);
    assert(seq![file].last() == file);
    assert(bytes_in(none, dir) == 0 && bytes_in_any(none, found) == 0);
    if b.len() == 0 {
        assert(a + b =~= a);
    } else {
        bytes_add_up(a, b.drop_last(), file, dir, found);
        assert((a + b).drop_last() =~= a + b.drop_last());
        assert((a + b).last() == b.last());
    }
}

proof fn lemma_filled_is_filter<P>(found: Seq<FoundView<P>>)
    ensures
        filled(found) == found.filter(|f: FoundView<P>| f.size > 0),
    decreases found.len(),
{
    reveal(Seq::filter);
    if found.len() > 0 {
        lemma_filled_is_filter(found.drop_last());
    } else {
        assert(filled(found) =~= found.filter(|f: FoundView<P>| f.size > 0));
    }
}

/// A project is listed just where a directory was found that holds anything. It has the name and the
/// colour of its language; all directories that hold anything are to be deleted, in the order in
/// which they were found; and where they were measured by their files, its size is the bytes of the
/// files in them, each file once.
pub proof fn listed_projects_are_what_was_found<P>(
    rule: LangRuleView,
    display_name: Seq<char>,
    found: Seq<FoundView<P>>,
    files: Seq<(Place, u64)>,
)
    requires
        forall|i: int|
            0 <= i < found.len() ==> (#[trigger] found[i]).size == bytes_in(files, found[i].place),
        bytes_in_any(files, found) <= u64::MAX,
    ensures
        match found_project(rule, display_name, found) {
            Some(project) => {
                &&& project.display_name == display_name
                &&& project.lang == rule.name
                &&& project.lang_color == rule.color
                &&& project.target == TargetView::Directories(
                    found.filter(|f: FoundView<P>| f.size > 0).map_values(|f: FoundView<P>| f.dir),
                )
                &&& project.size == bytes_in_any(files, found)
                &&& project.size > 0
                &&& !project.selected
            },
            None => forall|i: int| 0 <= i < found.len() ==> (#[trigger] found[i]).size == 0,
        },
{
    lemma_filled_is_filter(found);
    size_is_that_of_the_files(files, found);
    found_projects_have_something_to_free(rule, display_name, found);
    assert(dirs_of(filled(found)) =~= found.filter(|f: FoundView<P>| f.size > 0).map_values(
        |f: FoundView<P>| f.dir,
    ));
}

/// What is found of several names is what is found of each, one after the other.
pub proof fn names_are_looked_for_one_by_one<P>(
    a: Seq<Seq<char>>,
    b: Seq<Seq<char>>,
    name: Seq<char>,
    look: spec_fn(Seq<char>) -> Seq<FoundView<P>>,
)
    ensures
        all_found(a + b, look) == all_found(a, look) + all_found(b, look),
        all_found(seq![name], look) == look(name),
    decreases b.len(),
{
    let none = Seq::<Seq<char>>::empty();
    assert(seq![name].drop_last() =~= none);
    assert(seq![name].last() == name);
    assert(all_found(none, look) =~= Seq::<FoundView<P>>::empty());
    assert(all_found(seq![name], look) =~= look(name));
    if b.len() == 0 {
        assert(a + b =~= a);
        assert(all_found(a, look) + all_found(b, look) =~= all_found(a, look));
    } else {
        names_are_looked_for_one_by_one(a, b.drop_last(), name, look);
        assert((a + b).drop_last() =~= a + b.drop_last());
        assert((a + b).last() == b.last());
        assert(all_found(a + b, look) =~= all_found(a, look) + all_found(b, look));
    }
}

/// A directory that has any marker of a rule, and none of an earlier one, is listed by that rule with
/// all that is found of its directories; with no marker of any rule it is not listed.
pub proof fn directories_are_listed_by_their_rule<P>(
    rules: Seq<LangRuleView>,
    display_name: Seq<char>,
    answer: spec_fn(Seq<char>) -> bool,
    look: spec_fn(Seq<char>) -> Seq<FoundView<P>>,
    r: int,
    m: int,
)
    requires
        forall|i: int| 0 <= i < rules.len() ==> (#[trigger] rules[i]).markers.len() > 0,
        0 <= r <= rules.len(),
        r < rules.len() ==> 0 <= m < rules[r].markers.len() && answer(rules[r].markers[m]),
        forall|i: int, j: int|
            0 <= i < r && 0 <= j < rules[i].markers.len() ==> !answer(
                #[trigger] rules[i].markers[j],
            ),
    ensures
        scan_entry(rules, scan_end(rules, scan_start(), answer, look), display_name) == if r
            < rules.len() {
            found_project(rules[r], display_name, all_found(rules[r].dep_dirs, look))
        } else {
            None
        },
{
    any_marker_will_do(rules, answer, r, m);
    scan_finds_first_rule(rules, display_name, answer, look);
    let end = probe_end(rules, probe_start(), answer);
    first_rule_wins(rules, answer);
    let entry = scan_entry(rules, scan_end(rules, scan_start(), answer, look), display_name);
    if exists|k: int|
        #[trigger] is_first_rule(rules, answer, k) && entry == found_project(
            rules[k],
            display_name,
            all_found(rules[k].dep_dirs, look),
        ) {
        let k = choose|k: int|
            #[trigger] is_first_rule(rules, answer, k) && entry == found_project(
                rules[k],
                display_name,
                all_found(rules[k].dep_dirs, look),
            );
        if r < rules.len() {
            assert(is_first_rule(rules, answer, r));
            assert(k == r);
        }
    }
}

} // verus!
