//! Container images that no container uses.

use crate::project::CleanTarget;
use crate::project::Color;
use crate::project::Project;
use crate::project::ProjectView;
use crate::project::TargetView;
use crate::size::docker_size;
use crate::size::parse_docker_size;
use crate::text::beginnings_are_fronts;
use crate::text::begins;
use crate::text::begins_with;
use crate::text::chars_of;
use crate::text::lines;
use crate::text::lines_of;
use crate::text::pieces;
use crate::text::same_text;
use crate::text::split;
use crate::text::text_between;
use crate::text::trim;
use crate::text::trimmed;
use vstd::prelude::*;
use vstd::utf8::decode_utf8;
use vstd::utf8::decode_utf8_encode_utf8;
use vstd::utf8::encode_utf8;
use vstd::utf8::encode_utf8_decode_utf8;
use vstd::utf8::encode_utf8_valid_utf8;
use vstd::utf8::is_ascii_chars_encode_utf8;
use vstd::utf8::is_char_boundary;
use vstd::utf8::valid_utf8;
use vstd::utf8::valid_utf8_split;

verus! {

/// Whether `s` can be cut behind its first `n` bytes.
pub open spec fn cuts_at(s: Seq<char>, n: int) -> bool {
    is_char_boundary(encode_utf8(s), n)
}

/// The first `n` bytes of `s`, as text.
pub open spec fn first_bytes(s: Seq<char>, n: int) -> Seq<char> {
    decode_utf8(encode_utf8(s).subrange(0, n))
}

/// The first `n` bytes of `s`, as text.
fn cut(s: &str, n: usize) -> (r: String)
    requires
        cuts_at(s@, n as int),
    ensures
        r@ == first_bytes(s@, n as int),
{
    let (front, _) = s.split_at(n);
    proof {
        encode_utf8_decode_utf8(front@);
    }
    front.to_owned()
}

/// The short form of an image identifier as the engine prints it: twelve bytes, behind the name
/// of the digest where that is given. Without that name a shorter text has no short form.
pub open spec fn short_id(full: Seq<char>) -> Option<Seq<char>> {
    if begins(full, "sha256:"@) {
        Some(first_bytes(full.skip(7), 12))
    } else if encode_utf8(full).len() >= 12 {
        Some(first_bytes(full, 12))
    } else {
        None
    }
}

/// Whether the short form of an identifier can be cut out.
pub open spec fn has_short_id(full: Seq<char>) -> bool {
    if begins(full, "sha256:"@) {
        cuts_at(full.skip(7), 12)
    } else {
        encode_utf8(full).len() >= 12 ==> cuts_at(full, 12)
    }
}

/// What follows the name of the digest, where `full` begins with that.
fn behind_digest(full: &str) -> (r: Option<String>)
    ensures
        match r {
            Some(rest) => begins(full@, "sha256:"@) && rest@ == full@.skip(7),
            None => !begins(full@, "sha256:"@),
        },
{
    let v = chars_of(full);
    if begins_with(&v, "sha256:") {
        proof {
            reveal_strlit("sha256:");
        }
        let rest = text_between(&v, 7, v.len());
        assert(rest@ =~= full@.skip(7));
        Some(rest)
    } else {
        None
    }
}

/// Whether the short form of the identifier in `output` can be cut out.
pub fn can_shorten(output: &str) -> (r: bool)
    ensures
        r == has_short_id(trimmed(output@)),
{
    let full = trim(output);
    match behind_digest(full.as_str()) {
        Some(rest) => rest.as_str().is_char_boundary(12),
        None => full.as_str().as_bytes().len() < 12 || full.as_str().is_char_boundary(12),
    }
}

/// The short form of the identifier that the engine printed as `output`.
pub fn shorten(output: &str) -> (r: Option<String>)
    requires
        has_short_id(trimmed(output@)),
    ensures
        match r {
            Some(id) => short_id(trimmed(output@)) == Some(id@),
            None => short_id(trimmed(output@)) is None,
        },
{
    let full = trim(output);
    match behind_digest(full.as_str()) {
        Some(rest) => Some(cut(rest.as_str(), 12)),
        None => {
            if full.as_str().as_bytes().len() >= 12 {
                Some(cut(full.as_str(), 12))
            } else {
                None
            }
        },
    }
}

/// Whether an image has neither a repository nor a tag.
pub open spec fn is_dangling(repo: Seq<char>, tag: Seq<char>) -> bool {
    tag == "<none>"@ && repo == "<none>"@
}

/// The start of an identifier: twelve bytes of it, or all of it.
pub open spec fn id_start(id: Seq<char>) -> Seq<char> {
    if encode_utf8(id).len() <= 12 {
        id
    } else {
        first_bytes(id, 12)
    }
}

/// Whether the start of an identifier can be cut out.
pub open spec fn has_id_start(id: Seq<char>) -> bool {
    encode_utf8(id).len() > 12 ==> cuts_at(id, 12)
}

/// The name under which an image is listed.
pub open spec fn display_name(repo: Seq<char>, tag: Seq<char>, id: Seq<char>) -> Seq<char> {
    if is_dangling(repo, tag) {
        "<dangling> "@ + id_start(id)
    } else if tag == "<none>"@ {
        repo
    } else {
        repo + ":"@ + tag
    }
}

/// Whether the start of an identifier can be cut out.
fn can_cut_id(id: &str) -> (r: bool)
    ensures
        r == has_id_start(id@),
{
    id.as_bytes().len() <= 12 || id.is_char_boundary(12)
}

/// The name under which an image is listed.
pub fn docker_display(repo: &str, tag: &str, id: &str) -> (r: String)
    requires
        is_dangling(repo@, tag@) ==> has_id_start(id@),
    ensures
        r@ == display_name(repo@, tag@, id@),
{
    if same_text(tag, "<none>") && same_text(repo, "<none>") {
        let mut r = "<dangling> ".to_owned();
        if id.as_bytes().len() <= 12 {
            r.append(id);
        } else {
            r.append(cut(id, 12).as_str());
        }
        r
    } else if same_text(tag, "<none>") {
        repo.to_owned()
    } else {
        let mut r = repo.to_owned();
        r.append(":");
        r.append(tag);
        r
    }
}

/// What the engine prints of an image.
pub struct ImageView {
    pub id: Seq<char>,
    pub repo: Seq<char>,
    pub tag: Seq<char>,
    pub size: Seq<char>,
}

/// The image that a line describes: at least four columns, parted by tabs.
pub open spec fn image_of(line: Seq<char>) -> Option<ImageView> {
    let columns = pieces(line, '\t');
    if columns.len() < 4 {
        None
    } else {
        Some(
            ImageView {
                id: trimmed(columns[0]),
                repo: trimmed(columns[1]),
                tag: trimmed(columns[2]),
                size: trimmed(columns[3]),
            },
        )
    }
}

/// Whether a container uses an image: `ids` are the short identifiers of the images in use, and
/// `names` is what the containers call their images.
pub open spec fn is_in_use(
    image: ImageView,
    names: Seq<Seq<char>>,
    ids: Seq<Seq<char>>,
) -> bool {
    ||| ids.contains(image.id)
    ||| names.contains(image.id)
    ||| names.contains(image.repo)
    ||| names.contains(image.repo + ":"@ + image.tag)
}

/// The list entry of an image.
pub open spec fn image_project<P>(image: ImageView) -> ProjectView<P> {
    ProjectView {
        display_name: display_name(image.repo, image.tag, image.id),
        lang: "Docker"@,
        lang_color: Color::LightBlue,
        target: TargetView::DockerImage { id: image.id },
        size: docker_size(image.size),
        selected: false,
    }
}

/// The list entry that a line leads to: there is none where the line describes no image, or one
/// that is in use.
pub open spec fn line_project<P>(
    line: Seq<char>,
    names: Seq<Seq<char>>,
    ids: Seq<Seq<char>>,
) -> Option<ProjectView<P>> {
    match image_of(line) {
        Some(image) if !is_in_use(image, names, ids) => Some(image_project(image)),
        _ => None,
    }
}

/// The list entries that lines lead to, in their order.
pub open spec fn lines_projects<P>(
    lines: Seq<Seq<char>>,
    names: Seq<Seq<char>>,
    ids: Seq<Seq<char>>,
) -> Seq<ProjectView<P>>
    decreases lines.len(),
{
    if lines.len() == 0 {
        Seq::empty()
    } else {
        let front = lines_projects(lines.drop_last(), names, ids);
        match line_project(lines.last(), names, ids) {
            Some(project) => front.push(project),
            None => front,
        }
    }
}

/// Whether the name under which a line's image is listed can be made.
pub open spec fn line_has_name(
    line: Seq<char>,
    names: Seq<Seq<char>>,
    ids: Seq<Seq<char>>,
) -> bool {
    match image_of(line) {
        Some(image) if !is_in_use(image, names, ids) && is_dangling(
            image.repo,
            image.tag,
        ) => has_id_start(image.id),
        _ => true,
    }
}

/// Whether the names of all images in `output` can be made.
pub open spec fn images_have_names(
    output: Seq<char>,
    names: Seq<Seq<char>>,
    ids: Seq<Seq<char>>,
) -> bool {
    forall|i: int|
        0 <= i < lines_of(output).len() ==> line_has_name(
            #[trigger] lines_of(output)[i],
            names,
            ids,
        )
}

/// What the engine prints of an image.
struct Image {
    id: String,
    repo: String,
    tag: String,
    size: String,
}

impl View for Image {
    type V = ImageView;

    closed spec fn view(&self) -> ImageView {
        ImageView { id: self.id@, repo: self.repo@, tag: self.tag@, size: self.size@ }
    }
}

/// Reads a line that describes an image.
fn read_image(line: &str) -> (r: Option<Image>)
    ensures
        match r {
            Some(image) => image_of(line@) == Some(image@),
            None => image_of(line@) is None,
        },
{
    let columns = split(line, '\t');
    let ghost wanted = pieces(line@, '\t');
    if columns.len() < 4 {
        return None;
    }
    assert(columns@[0]@ == wanted[0]);
    assert(columns@[1]@ == wanted[1]);
    assert(columns@[2]@ == wanted[2]);
    assert(columns@[3]@ == wanted[3]);
    Some(
        Image {
            id: trim(columns[0].as_str()),
            repo: trim(columns[1].as_str()),
            tag: trim(columns[2].as_str()),
            size: trim(columns[3].as_str()),
        },
    )
}

/// Whether `text` is one of `list`.
fn is_listed(list: &Vec<String>, text: &str) -> (r: bool)
    ensures
        r == list.deep_view().contains(text@),
{
    let mut i: usize = 0;
    while i < list.len()
        invariant
            i <= list@.len(),
            forall|j: int| 0 <= j < i ==> #[trigger] list.deep_view()[j] != text@,
        decreases list@.len() - i,
    {
        assert(list.deep_view()[i as int] == list@[i as int]@);
        if same_text(list[i].as_str(), text) {
            return true;
        }
        i += 1;
    }
    false
}

/// Whether a container uses an image.
fn in_use(image: &Image, names: &Vec<String>, ids: &Vec<String>) -> (r: bool)
    ensures
        r == is_in_use(image@, names.deep_view(), ids.deep_view()),
{
    let mut full = image.repo.clone();
    full.append(":");
    full.append(image.tag.as_str());
    is_listed(ids, image.id.as_str()) || is_listed(names, image.id.as_str()) || is_listed(
        names,
        image.repo.as_str(),
    ) || is_listed(names, full.as_str())
}

/// Whether the names of all images in `output` can be made.
pub fn can_name_images(output: &str, names: &Vec<String>, ids: &Vec<String>) -> (r: bool)
    ensures
        r == images_have_names(output@, names.deep_view(), ids.deep_view()),
{
    let all = lines(output);
    let ghost wanted = lines_of(output@);
    let mut i: usize = 0;
    while i < all.len()
        invariant
            i <= all@.len(),
            all.deep_view() == wanted,
            wanted == lines_of(output@),
            forall|j: int|
                0 <= j < i ==> line_has_name(
                    #[trigger] wanted[j],
                    names.deep_view(),
                    ids.deep_view(),
                ),
        decreases all@.len() - i,
    {
        assert(wanted[i as int] == all@[i as int]@);
        if let Some(image) = read_image(all[i].as_str()) {
            if !in_use(&image, names, ids) && same_text(image.tag.as_str(), "<none>") && same_text(
                image.repo.as_str(),
                "<none>",
            ) && !can_cut_id(image.id.as_str()) {
                assert(!line_has_name(wanted[i as int], names.deep_view(), ids.deep_view()));
                return false;
            }
        }
        i += 1;
    }
    true
}

/// The images that no container uses, from what the engine prints: `output` describes an image
/// per line, `names` is what the containers call their images, and `ids` are the short
/// identifiers of those.
pub fn scan_docker_images<P>(output: &str, names: &Vec<String>, ids: &Vec<String>) -> (r: Vec<
    Project<P>,
>)
    requires
        images_have_names(output@, names.deep_view(), ids.deep_view()),
    ensures
        r.deep_view() == lines_projects::<P>(
            lines_of(output@),
            names.deep_view(),
            ids.deep_view(),
        ),
{
    let all = lines(output);
    let ghost wanted = lines_of(output@);
    let ghost n = names.deep_view();
    let ghost u = ids.deep_view();
    let mut r: Vec<Project<P>> = Vec::new();
    let mut i: usize = 0;
    assert(r.deep_view() =~= lines_projects::<P>(wanted.take(0), n, u));
    while i < all.len()
        invariant
            i <= all@.len(),
            all.deep_view() == wanted,
            n == names.deep_view(),
            u == ids.deep_view(),
            forall|j: int| 0 <= j < wanted.len() ==> line_has_name(#[trigger] wanted[j], n, u),
            r.deep_view() == lines_projects::<P>(wanted.take(i as int), n, u),
        decreases all@.len() - i,
    {
        let ghost before = r.deep_view();
        assert(wanted[i as int] == all@[i as int]@);
        assert(line_has_name(wanted[i as int], n, u));
        assert(wanted.take(i + 1).drop_last() =~= wanted.take(i as int));
        if let Some(image) = read_image(all[i].as_str()) {
            if !in_use(&image, names, ids) {
                let project = Project {
                    display_name: docker_display(
                        image.repo.as_str(),
                        image.tag.as_str(),
                        image.id.as_str(),
                    ),
                    lang: "Docker",
                    lang_color: Color::LightBlue,
                    target: CleanTarget::DockerImage { id: image.id.clone() },
                    size: parse_docker_size(image.size.as_str()),
                    selected: false,
                };
                assert(project@ == image_project::<P>(image@));
                r.push(project);
                assert(r.deep_view() =~= before.push(project@));
            }
        }
        i += 1;
    }
    assert(wanted.take(i as int) =~= wanted);
    r
}

/// No image that a container uses is listed: neither by its identifier nor by its name.
pub proof fn images_in_use_are_not_listed<P>(
    lines: Seq<Seq<char>>,
    names: Seq<Seq<char>>,
    ids: Seq<Seq<char>>,
    i: int,
)
    requires
        0 <= i < lines_projects::<P>(lines, names, ids).len(),
    ensures
        exists|j: int|
            0 <= j < lines.len() && (#[trigger] image_of(lines[j])) is Some && !is_in_use(
                image_of(lines[j])->0,
                names,
                ids,
            ) && lines_projects::<P>(lines, names, ids)[i] == image_project::<P>(
                image_of(lines[j])->0,
            ),
    decreases lines.len(),
{
    if lines.len() > 0 {
        let front = lines.drop_last();
        let before = lines_projects::<P>(front, names, ids);
        if i < before.len() {
            images_in_use_are_not_listed::<P>(front, names, ids, i);
            let j = choose|j: int|
                0 <= j < front.len() && (#[trigger] image_of(front[j])) is Some && !is_in_use(
                    image_of(front[j])->0,
                    names,
                    ids,
                ) && before[i] == image_project::<P>(image_of(front[j])->0);
            assert(lines[j] == front[j]);
        } else {
            assert(lines[lines.len() - 1] == lines.last());
        }
    }
}

/// Every image that no container uses is listed.
pub proof fn unused_images_are_listed<P>(
    lines: Seq<Seq<char>>,
    names: Seq<Seq<char>>,
    ids: Seq<Seq<char>>,
    j: int,
)
    requires
        0 <= j < lines.len(),
        image_of(lines[j]) is Some,
        !is_in_use(image_of(lines[j])->0, names, ids),
    ensures
        lines_projects::<P>(lines, names, ids).contains(image_project::<P>(image_of(lines[j])->0)),
    decreases lines.len(),
{
    let all = lines_projects::<P>(lines, names, ids);
    let wanted = image_project::<P>(image_of(lines[j])->0);
    let front = lines.drop_last();
    let before = lines_projects::<P>(front, names, ids);
    if j == lines.len() - 1 {
        assert(all[all.len() - 1] == wanted);
    } else {
        assert(front[j] == lines[j]);
        unused_images_are_listed::<P>(front, names, ids, j);
        let k = choose|k: int| 0 <= k < before.len() && before[k] == wanted;
        assert(all[k] == wanted);
    }
}

proof fn lemma_encode_add(a: Seq<char>, b: Seq<char>)
    ensures
        encode_utf8(a + b) == encode_utf8(a) + encode_utf8(b),
    decreases a.len(),
{
    if a.len() == 0 {
        assert(a + b =~= b);
        assert(encode_utf8(a) + encode_utf8(b) =~= encode_utf8(b));
    } else {
        assert((a + b).drop_first() =~= a.drop_first() + b);
        lemma_encode_add(a.drop_first(), b);
        assert(encode_utf8(a + b) =~= encode_utf8(a) + encode_utf8(b));
    }
}

proof fn lemma_cut_bytes(s: Seq<char>, n: int)
    requires
        cuts_at(s, n),
    ensures
        0 <= n <= encode_utf8(s).len(),
        encode_utf8(first_bytes(s, n)) == encode_utf8(s).subrange(0, n),
{
    let bytes = encode_utf8(s);
    encode_utf8_valid_utf8(s);
    lemma_boundary_within(bytes, n);
    valid_utf8_split(bytes, n);
    decode_utf8_encode_utf8(bytes.subrange(0, n));
}

proof fn lemma_boundary_within(bytes: Seq<u8>, n: int)
    requires
        valid_utf8(bytes),
        is_char_boundary(bytes, n),
    ensures
        0 <= n <= bytes.len(),
    decreases bytes.len(),
{
}

/// The short form of an identifier behind the name of its digest is its twelve bytes that follow that
/// name.
pub proof fn digests_are_cut_behind_their_name(id: Seq<char>)
    requires
        cuts_at(id, 12),
    ensures
        short_id("sha256:"@ + id) is Some,
        encode_utf8(short_id("sha256:"@ + id)->0) == encode_utf8("sha256:"@ + id).subrange(7, 19),
{
    reveal_strlit("sha256:");
    let full = "sha256:"@ + id;
    assert(full.take(7) =~= "sha256:"@);
    assert(full.skip(7) =~= id);
    lemma_cut_bytes(id, 12);
    lemma_encode_add("sha256:"@, id);
    is_ascii_chars_encode_utf8("sha256:"@);
    assert(encode_utf8("sha256:"@).len() == 7);
    assert(encode_utf8(full).subrange(7, 19) =~= encode_utf8(id).subrange(0, 12));
}

/// The short form of any other identifier is its first twelve bytes; one that is shorter has none.
pub proof fn other_identifiers_are_cut_in_front(full: Seq<char>)
    requires
        forall|rest: Seq<char>| full != #[trigger] ("sha256:"@ + rest),
        has_short_id(full),
    ensures
        encode_utf8(full).len() < 12 ==> short_id(full) is None,
        encode_utf8(full).len() >= 12 ==> short_id(full) is Some && encode_utf8(short_id(full)->0)
            == encode_utf8(full).subrange(0, 12),
{
    beginnings_are_fronts(full, "sha256:"@);
    if encode_utf8(full).len() >= 12 {
        lemma_cut_bytes(full, 12);
    }
}

/// A dangling image is named by its first twelve bytes, or by all of them where it has fewer.
pub proof fn dangling_images_are_named_by_identifier(id: Seq<char>)
    requires
        has_id_start(id),
    ensures
        exists|start: Seq<char>|
            display_name("<none>"@, "<none>"@, id) == "<dangling> "@ + start && #[trigger] encode_utf8(
                start,
            ) == encode_utf8(id).subrange(
                0,
                if encode_utf8(id).len() < 12 {
                    encode_utf8(id).len() as int
                } else {
                    12
                },
            ),
{
    let bytes = encode_utf8(id);
    let start = id_start(id);
    if bytes.len() > 12 {
        lemma_cut_bytes(id, 12);
    } else {
        assert(bytes.subrange(0, bytes.len() as int) =~= bytes);
    }
    assert(encode_utf8(start) == bytes.subrange(
        0,
        if bytes.len() < 12 {
            bytes.len() as int
        } else {
            12
        },
    ));
}

/// An image with a tag is named by repository and tag; one with a repository alone, by that.
pub proof fn tagged_images_are_named_by_tag(repo: Seq<char>, tag: Seq<char>, id: Seq<char>)
    ensures
        tag != "<none>"@ ==> display_name(repo, tag, id) == repo + ":"@ + tag,
        tag == "<none>"@ && repo != "<none>"@ ==> display_name(repo, tag, id) == repo,
{
}

/// Every entry of the list of images comes from a line of at least four columns. The identifier by
/// which it is deleted is the first column, just so; its size is that of the fourth; and neither its
/// identifier nor its names are in use.
pub proof fn listed_images_come_from_their_columns<P>(
    lines: Seq<Seq<char>>,
    names: Seq<Seq<char>>,
    ids: Seq<Seq<char>>,
    i: int,
) -> (j: int)
    requires
        0 <= i < lines_projects::<P>(lines, names, ids).len(),
    ensures
        0 <= j < lines.len(),
        ({
            let entry = lines_projects::<P>(lines, names, ids)[i];
            let columns = pieces(lines[j], '\t');
            let id = trimmed(columns[0]);
            let repo = trimmed(columns[1]);
            let tag = trimmed(columns[2]);
            &&& columns.len() >= 4
            &&& entry.target == (TargetView::<P>::DockerImage { id })
            &&& entry.display_name == display_name(repo, tag, id)
            &&& entry.size == docker_size(trimmed(columns[3]))
            &&& entry.lang == "Docker"@
            &&& entry.lang_color == Color::LightBlue
            &&& !entry.selected
            &&& !ids.contains(id)
            &&& !names.contains(id)
            &&& !names.contains(repo)
            &&& !names.contains(repo + ":"@ + tag)
        }),
{
    images_in_use_are_not_listed::<P>(lines, names, ids, i);
    choose|j: int|
        0 <= j < lines.len() && (#[trigger] image_of(lines[j])) is Some && !is_in_use(
            image_of(lines[j])->0,
            names,
            ids,
        ) && lines_projects::<P>(lines, names, ids)[i] == image_project::<P>(image_of(lines[j])->0)
}

/// Every line of at least four columns whose identifier and names are not in use leads to an entry,
/// to be deleted by the identifier in its first column.
pub proof fn unused_lines_are_listed<P>(
    lines: Seq<Seq<char>>,
    names: Seq<Seq<char>>,
    ids: Seq<Seq<char>>,
    j: int,
) -> (i: int)
    requires
        0 <= j < lines.len(),
        pieces(lines[j], '\t').len() >= 4,
        !ids.contains(trimmed(pieces(lines[j], '\t')[0])),
        !names.contains(trimmed(pieces(lines[j], '\t')[0])),
        !names.contains(trimmed(pieces(lines[j], '\t')[1])),
        !names.contains(
            trimmed(pieces(lines[j], '\t')[1]) + ":"@ + trimmed(pieces(lines[j], '\t')[2]),
        ),
    ensures
        0 <= i < lines_projects::<P>(lines, names, ids).len(),
        ({
            let entry = lines_projects::<P>(lines, names, ids)[i];
            let columns = pieces(lines[j], '\t');
            &&& entry.target == (TargetView::<P>::DockerImage { id: trimmed(columns[0]) })
            &&& entry.display_name == display_name(
                trimmed(columns[1]),
                trimmed(columns[2]),
                trimmed(columns[0]),
            )
            &&& entry.size == docker_size(trimmed(columns[3]))
        }),
{
    unused_images_are_listed::<P>(lines, names, ids, j);
    let all = lines_projects::<P>(lines, names, ids);
    let wanted = image_project::<P>(image_of(lines[j])->0);
    choose|i: int| 0 <= i < all.len() && all[i] == wanted
}

/// The images are listed in the order of their lines, each line by itself, with no more than one
/// entry each.
pub proof fn lines_are_read_one_by_one<P>(
    a: Seq<Seq<char>>,
    b: Seq<Seq<char>>,
    line: Seq<char>,
    names: Seq<Seq<char>>,
    ids: Seq<Seq<char>>,
)
    ensures
        lines_projects::<P>(a + b, names, ids) == lines_projects::<P>(a, names, ids)
            + lines_projects::<P>(b, names, ids),
        lines_projects::<P>(seq![line], names, ids).len() <= 1,
        lines_projects::<P>(Seq::empty(), names, ids).len() == 0,
    decreases b.len(),
{
    assert(seq![line].drop_last() =~= Seq::<Seq<char>>::empty());
    assert(lines_projects::<P>(Seq::empty(), names, ids).len() == 0);
    if b.len() == 0 {
        assert(a + b =~= a);
        assert(lines_projects::<P>(a, names, ids) + lines_projects::<P>(b, names, ids)
            =~= lines_projects::<P>(a, names, ids));
    } else {
        lines_are_read_one_by_one::<P>(a, b.drop_last(), line, names, ids);
        assert((a + b).drop_last() =~= a + b.drop_last());
        assert((a + b).last() == b.last());
        assert(lines_projects::<P>(a + b, names, ids) =~= lines_projects::<P>(a, names, ids)
            + lines_projects::<P>(b, names, ids));
    }
}

/// Only where a character would be cut in two, or an identifier behind the name of its digest is too
/// short, is there no short form.
pub proof fn identifiers_can_be_cut_between_characters(full: Seq<char>, rest: Seq<char>)
    ensures
        has_short_id("sha256:"@ + rest) <==> is_char_boundary(encode_utf8(rest), 12),
        (forall|r: Seq<char>| full != #[trigger] ("sha256:"@ + r)) ==> (has_short_id(full)
            <==> encode_utf8(full).len() < 12 || is_char_boundary(encode_utf8(full), 12)),
        has_id_start(full) <==> encode_utf8(full).len() <= 12 || is_char_boundary(
            encode_utf8(full),
            12,
        ),
{
    reveal_strlit("sha256:");
    let s = "sha256:"@ + rest;
    assert(s.take(7) =~= "sha256:"@);
    assert(s.skip(7) =~= rest);
    beginnings_are_fronts(full, "sha256:"@);
}

/// Whether the columns are those of a dangling image whose identifier cannot be cut.
pub open spec fn is_nameless(columns: Seq<Seq<char>>) -> bool {
    &&& columns.len() >= 4
    &&& trimmed(columns[1]) == "<none>"@
    &&& trimmed(columns[2]) == "<none>"@
    &&& encode_utf8(trimmed(columns[0])).len() > 12
    &&& !is_char_boundary(encode_utf8(trimmed(columns[0])), 12)
}

/// All names can be made where the identifiers of the dangling images can be cut. One that cannot is
/// no matter where the image is in use.
pub proof fn names_can_be_made(output: Seq<char>, names: Seq<Seq<char>>, ids: Seq<Seq<char>>)
    ensures
        (forall|i: int|
            0 <= i < lines_of(output).len() ==> !is_nameless(
                pieces(#[trigger] lines_of(output)[i], '\t'),
            )) ==> images_have_names(output, names, ids),
        images_have_names(output, names, ids) ==> forall|i: int|
            0 <= i < lines_of(output).len() && is_nameless(
                pieces(#[trigger] lines_of(output)[i], '\t'),
            ) ==> lines_projects::<int>(seq![lines_of(output)[i]], names, ids).len() == 0,
{
    let all = lines_of(output);
    if forall|i: int| 0 <= i < all.len() ==> !is_nameless(pieces(#[trigger] all[i], '\t')) {
        assert forall|i: int| 0 <= i < all.len() implies line_has_name(
            #[trigger] all[i],
            names,
            ids,
        ) by {
            assert(!is_nameless(pieces(all[i], '\t')));
        }
    }
    if images_have_names(output, names, ids) {
        assert forall|i: int|
            0 <= i < all.len() && is_nameless(
                pieces(#[trigger] all[i], '\t'),
            ) implies lines_projects::<int>(seq![all[i]], names, ids).len() == 0 by {
            assert(line_has_name(all[i], names, ids));
            assert(seq![all[i]].drop_last() =~= Seq::<Seq<char>>::empty());
            assert(lines_projects::<int>(Seq::empty(), names, ids).len() == 0);
            assert(seq![all[i]].last() == all[i]);
        }
    }
}

} // verus!
