//! The listing of the photos in a database.
use vstd::prelude::*;

use crate::batch::convertible_ids;
use crate::calendar::{format_iso8601, shows_time};
use crate::db::{resolve_rgb_path, resolved, PhotoListEntry};
use crate::text::{
    decimal, integer, is_digits, law_decimal_reads_back, left_aligned, push_decimal, push_integer,
    push_left_aligned, push_right_aligned, right_aligned, value,
};

verus! {

/// The directory that the images of a database are expected in: the one that the
/// database is in, which is the current one where its path is a bare file name.
pub fn database_directory(parent: Option<&str>) -> (r: String)
    ensures
        r@ == if parent is Some && parent->0@.len() > 0 {
            parent->0@
        } else {
            "."@
        },
{
    if let Some(directory) = parent {
        if directory.unicode_len() > 0 {
            return directory.to_owned();
        }
    }
    ".".to_owned()
}

/// How to find out whether the image of a photo is there.
#[derive(Debug, Clone)]
pub enum RgbCheck {
    /// By this name in the directory of the images, which is read once: a
    /// directory on the network takes long to ask for each file.
    Listed(String),
    /// At this path.
    At(String),
}

/// Where the first slash of a path is, or its end.
pub open spec fn first_slash(path: Seq<char>) -> nat
    decreases path.len(),
{
    if path.len() == 0 || path[0] == '/' {
        0
    } else {
        1 + first_slash(path.skip(1))
    }
}

/// Whether what follows the first slash stays where it is: nothing but slashes
/// and single dots between them.
pub open spec fn stays_here(path: Seq<char>, from: nat) -> bool {
    forall|i: int|
        from <= i < path.len() ==> #[trigger] path[i] == '/' || (path[i] == '.' && path[i - 1]
            == '/')
}

/// Whether a path is the bare name of a file in the directory itself.
pub open spec fn is_bare(path: Seq<char>) -> bool {
    let name = path.take(first_slash(path) as int);
    &&& name.len() > 0
    &&& name != seq!['.']
    &&& name != seq!['.', '.']
    &&& stays_here(path, first_slash(path))
}

proof fn lemma_first_slash(path: Seq<char>, n: nat)
    requires
        n <= path.len(),
        forall|i: int| 0 <= i < n ==> path[i] != '/',
        n < path.len() ==> path[n as int] == '/',
    ensures
        first_slash(path) == n,
    decreases n,
{
    if n > 0 {
        lemma_first_slash(path.skip(1), (n - 1) as nat);
    }
}

/// How to find out whether the image at `rgb_path` is there, with `root` as the
/// directory of the images. The app stores bare file names.
pub fn rgb_check(rgb_path: &str, root: &str) -> (r: RgbCheck)
    ensures
        match r {
            RgbCheck::Listed(name) => is_bare(rgb_path@) && name@ == rgb_path@.take(
                first_slash(rgb_path@) as int,
            ),
            RgbCheck::At(path) => !is_bare(rgb_path@) && path@ == resolved(rgb_path@, root@),
        },
{
    let len: usize = rgb_path.unicode_len();
    let mut end: usize = 0;
    while end < len && rgb_path.get_char(end) != '/'
        invariant
            end <= len,
            len == rgb_path@.len(),
            forall|i: int| 0 <= i < end ==> rgb_path@[i] != '/',
        decreases len - end,
    {
        end = end + 1;
    }
    proof {
        lemma_first_slash(rgb_path@, end as nat);
        reveal_strlit(".");
        reveal_strlit("..");
        assert("."@ =~= seq!['.']);
        assert(".."@ =~= seq!['.', '.']);
    }
    let name = rgb_path.substring_char(0, end).to_owned();
    assert(name@ =~= rgb_path@.take(end as int));
    let mut bare: bool = end > 0 && name != ".".to_owned() && name != "..".to_owned();
    assert(bare == (name@.len() > 0 && name@ != seq!['.'] && name@ != seq!['.', '.']));
    let ghost named = bare;
    let mut i: usize = end;
    while i < len
        invariant
            end <= i <= len,
            end > 0 || !bare,
            len == rgb_path@.len(),
            end == first_slash(rgb_path@),
            end < len ==> rgb_path@[end as int] == '/',
            bare ==> named,
            bare == (named && forall|j: int|
                end <= j < i ==> #[trigger] rgb_path@[j] == '/' || (rgb_path@[j] == '.'
                    && rgb_path@[j - 1] == '/')),
        decreases len - i,
    {
        let c = rgb_path.get_char(i);
        if c != '/' {
            if c != '.' || i == 0 || rgb_path.get_char(i - 1) != '/' {
                bare = false;
            }
        }
        i = i + 1;
    }
    if bare {
        RgbCheck::Listed(name)
    } else {
        RgbCheck::At(resolve_rgb_path(rgb_path, root))
    }
}

/// The places before `n` at which `present` is `wanted`, in order.
pub open spec fn places(present: Seq<bool>, wanted: bool, n: nat) -> Seq<int>
    decreases n,
{
    if n == 0 {
        seq![]
    } else {
        let before = places(present, wanted, (n - 1) as nat);
        if present[n - 1] == wanted {
            before.push(n - 1)
        } else {
            before
        }
    }
}

/// Which photos are shown, in order: those whose image is there, and behind them
/// the others where they are asked for.
pub open spec fn shown(present: Seq<bool>, show_missing_rgb: bool) -> Seq<int> {
    let there = places(present, true, present.len());
    if show_missing_rgb {
        there + places(present, false, present.len())
    } else {
        there
    }
}

fn places_of(present: &Vec<bool>, wanted: bool) -> (r: Vec<usize>)
    ensures
        r@.map_values(|i: usize| i as int) == places(present@, wanted, present@.len()),
        forall|k: int| 0 <= k < r@.len() ==> #[trigger] r@[k] < present@.len(),
{
    let mut out: Vec<usize> = Vec::new();
    let mut i: usize = 0;
    assert(out@.map_values(|i: usize| i as int) =~= places(present@, wanted, 0));
    while i < present.len()
        invariant
            i <= present@.len(),
            out@.map_values(|i: usize| i as int) == places(present@, wanted, i as nat),
            forall|k: int| 0 <= k < out@.len() ==> #[trigger] out@[k] < i,
        decreases present@.len() - i,
    {
        if present[i] == wanted {
            out.push(i);
        }
        assert(out@.map_values(|i: usize| i as int) =~= places(present@, wanted, i as nat + 1));
        i = i + 1;
    }
    out
}

/// The line above the photos.
pub open spec fn header() -> Seq<char> {
    right_aligned("id"@, 6) + "  "@ + left_aligned("captured (utc)"@, 20) + "  "@ + right_aligned(
        "fish (cm)"@,
        10,
    ) + "  "@ + right_aligned("depth+K?"@, 9) + "  "@ + right_aligned("rgb?"@, 5) + "  place"@
}

fn header_line() -> (r: String)
    ensures
        r@ == header(),
{
    let mut out = String::new();
    push_right_aligned(&mut out, "id", 6);
    out.append("  ");
    push_left_aligned(&mut out, "captured (utc)", 20);
    out.append("  ");
    push_right_aligned(&mut out, "fish (cm)", 10);
    out.append("  ");
    push_right_aligned(&mut out, "depth+K?", 9);
    out.append("  ");
    push_right_aligned(&mut out, "rgb?", 5);
    out.append("  place");
    assert(out@ =~= header());
    out
}

/// What the listing says of the blobs of a photo: whether it can be converted, or
/// lacks the camera matrix, or the depth map.
pub open spec fn convertible_label(has_depth: bool, has_intrinsics: bool) -> Seq<char> {
    if has_depth && has_intrinsics {
        "    yes"@
    } else if has_depth {
        "  no(K)"@
    } else {
        " no(d) "@
    }
}

/// What the listing says of the image of a photo.
pub open spec fn rgb_label(present: bool) -> Seq<char> {
    if present {
        "  yes"@
    } else {
        "   no"@
    }
}

/// What the listing says of the length of a fish, which comes in its column, or
/// not at all.
pub open spec fn length_label(length: Option<String>) -> Seq<char> {
    match length {
        Some(text) => text@,
        None => "         -"@,
    }
}

/// The line of a photo.
pub open spec fn photo_text(
    e: PhotoListEntry,
    time: Seq<char>,
    length: Option<String>,
    present: bool,
) -> Seq<char> {
    right_aligned(integer(e.id as int, 0), 6) + "  "@ + left_aligned(time, 20) + "  "@
        + length_label(length) + "  "@ + right_aligned(
        convertible_label(e.has_depth, e.has_intrinsics),
        9,
    ) + "  "@ + rgb_label(present) + "  "@ + match e.place_name {
        Some(place) => place@,
        None => seq![],
    }
}

/// Whether `text` is the line of a photo.
pub open spec fn is_photo_line(
    e: PhotoListEntry,
    length: Option<String>,
    present: bool,
    text: Seq<char>,
) -> bool {
    exists|time: Seq<char>| #[trigger]
        shows_time(e.utc_unix_timestamp as int, time) && text == photo_text(
            e,
            time,
            length,
            present,
        )
}

/// The line of a photo: `length` is the length of the fish in its column, in
/// centimetres, and `present` tells whether the image is there.
pub fn photo_line(e: &PhotoListEntry, length: &Option<String>, present: bool) -> (r: String)
    ensures
        is_photo_line(*e, *length, present, r@),
{
    let time = format_iso8601(e.utc_unix_timestamp);
    let mut id = String::new();
    push_integer(&mut id, e.id, 0);
    let mut out = String::new();
    push_right_aligned(&mut out, id.as_str(), 6);
    out.append("  ");
    push_left_aligned(&mut out, time.as_str(), 20);
    out.append("  ");
    match length {
        Some(text) => out.append(text.as_str()),
        None => out.append("         -"),
    }
    out.append("  ");
    let convertible = if e.has_depth && e.has_intrinsics {
        "    yes"
    } else if e.has_depth {
        "  no(K)"
    } else {
        " no(d) "
    };
    push_right_aligned(&mut out, convertible, 9);
    out.append("  ");
    out.append(
        if present {
            "  yes"
        } else {
            "   no"
        },
    );
    out.append("  ");
    if let Some(place) = &e.place_name {
        out.append(place.as_str());
    }
    proof {
        assert(id@ =~= integer(e.id as int, 0));
        assert(out@ =~= photo_text(*e, time@, *length, present));
    }
    out
}

/// What is said of photos that are not shown.
pub open spec fn hidden_text(count: nat, root: Seq<char>) -> Seq<char> {
    "("@ + decimal(count) + " hidden — RGB file missing under "@ + root
        + "; pass --show-missing-rgb to include)"@
}

/// A listing: its lines, and a note about what they leave out.
#[derive(Debug, Clone)]
pub struct Listing {
    pub lines: Vec<String>,
    pub note: Option<String>,
}

/// Lists the photos. `lengths` has the length of the fish of each in its column,
/// and `present` tells of each whether its image is in the directory `root`.
pub fn list(
    entries: &Vec<PhotoListEntry>,
    lengths: &Vec<Option<String>>,
    present: &Vec<bool>,
    show_missing_rgb: bool,
    root: &str,
) -> (r: Listing)
    requires
        lengths@.len() == entries@.len(),
        present@.len() == entries@.len(),
    ensures
        entries@.len() == 0 ==> r.lines@.len() == 1 && r.lines@[0]@ == "(no photos)"@,
        entries@.len() > 0 ==> {
            let order = shown(present@, show_missing_rgb);
            &&& r.lines@.len() == order.len() + 1
            &&& r.lines@[0]@ == header()
            &&& forall|k: int|
                0 <= k < order.len() ==> is_photo_line(
                    entries@[order[k]],
                    lengths@[order[k]],
                    present@[order[k]],
                    #[trigger] r.lines@[k + 1]@,
                )
        },
        ({
            let missing = places(present@, false, present@.len()).len();
            if missing > 0 && !show_missing_rgb {
                r.note matches Some(note) && note@ == hidden_text(missing, root@)
            } else {
                r.note is None
            }
        }),
{
    let mut lines: Vec<String> = Vec::new();
    if entries.len() == 0 {
        lines.push("(no photos)".to_owned());
        return Listing { lines, note: None };
    }
    let mut order = places_of(present, true);
    let mut missing = places_of(present, false);
    let hidden: usize = missing.len();
    let ghost to_int = |i: usize| i as int;
    assert(hidden == places(present@, false, present@.len()).len());
    let ghost there = order@;
    let ghost gone = missing@;
    if show_missing_rgb {
        order.append(&mut missing);
        assert(order@.map_values(to_int) =~= there.map_values(to_int) + gone.map_values(to_int));
    }
    assert(order@.map_values(to_int) == shown(present@, show_missing_rgb));
    assert(forall|k: int| 0 <= k < order@.len() ==> #[trigger] order@[k] < entries@.len());
    lines.push(header_line());
    let mut k: usize = 0;
    while k < order.len()
        invariant
            k <= order@.len(),
            lengths@.len() == entries@.len(),
            present@.len() == entries@.len(),
            forall|j: int| 0 <= j < order@.len() ==> #[trigger] order@[j] < entries@.len(),
            lines@.len() == k + 1,
            lines@[0]@ == header(),
            forall|j: int|
                1 <= j <= k ==> is_photo_line(
                    entries@[order@[j - 1] as int],
                    lengths@[order@[j - 1] as int],
                    present@[order@[j - 1] as int],
                    #[trigger] lines@[j]@,
                ),
        decreases order@.len() - k,
    {
        let i: usize = order[k];
        lines.push(photo_line(&entries[i], &lengths[i], present[i]));
        k = k + 1;
    }
    proof {
        let all = shown(present@, show_missing_rgb);
        assert forall|k: int| 0 <= k < all.len() implies is_photo_line(
            entries@[all[k]],
            lengths@[all[k]],
            present@[all[k]],
            #[trigger] lines@[k + 1]@,
        ) by {
            assert(order@.map_values(to_int)[k] == order@[k + 1 - 1]);
        }
    }
    if show_missing_rgb || hidden == 0 {
        return Listing { lines, note: None };
    }
    let mut note = "(".to_owned();
    push_decimal(&mut note, hidden as u64);
    note.append(" hidden — RGB file missing under ");
    note.append(root);
    note.append("; pass --show-missing-rgb to include)");
    assert(note@ =~= hidden_text(hidden as nat, root@));
    Listing { lines, note: Some(note) }
}

/// Every photo is either there or missing.
pub proof fn law_there_or_missing(present: Seq<bool>, n: nat)
    ensures
        places(present, true, n).len() + places(present, false, n).len() == n,
    decreases n,
{
    if n > 0 {
        law_there_or_missing(present, (n - 1) as nat);
    }
}

/// The photos of either kind stay in the order that they came in, and none is
/// left out.
pub proof fn law_places_in_order(present: Seq<bool>, wanted: bool, n: nat)
    ensures
        forall|k: int|
            0 <= k < places(present, wanted, n).len() ==> {
                let i = #[trigger] places(present, wanted, n)[k];
                0 <= i < n && present[i] == wanted
            },
        forall|j: int, k: int|
            0 <= j < k < places(present, wanted, n).len() ==> #[trigger] places(
                present,
                wanted,
                n,
            )[j] < #[trigger] places(present, wanted, n)[k],
        forall|i: int|
            0 <= i < n && #[trigger] present[i] == wanted ==> places(present, wanted, n).contains(
                i,
            ),
    decreases n,
{
    if n > 0 {
        let before = places(present, wanted, (n - 1) as nat);
        let all = places(present, wanted, n);
        law_places_in_order(present, wanted, (n - 1) as nat);
        assert forall|i: int| 0 <= i < n && #[trigger] present[i] == wanted implies all.contains(
            i,
        ) by {
            if i < n - 1 {
                let k = choose|k: int| 0 <= k < before.len() && before[k] == i;
                assert(all[k] == i);
            } else {
                assert(all[before.len() as int] == i);
            }
        }
    }
}

/// Without the missing ones, what is shown is exactly what is there; with them,
/// every photo is shown.
pub proof fn law_what_is_shown(present: Seq<bool>)
    ensures
        shown(present, true).len() == present.len(),
        forall|i: int|
            0 <= i < present.len() ==> #[trigger] shown(present, true).contains(i),
        shown(present, false).len() + places(present, false, present.len()).len() == present.len(),
        forall|k: int|
            0 <= k < shown(present, false).len() ==> present[#[trigger] shown(present, false)[k]],
{
    let n = present.len();
    law_there_or_missing(present, n);
    law_places_in_order(present, true, n);
    law_places_in_order(present, false, n);
    let there = places(present, true, n);
    let gone = places(present, false, n);
    assert forall|i: int| 0 <= i < n implies #[trigger] shown(present, true).contains(i) by {
        if present[i] {
            let k = choose|k: int| 0 <= k < there.len() && there[k] == i;
            assert(shown(present, true)[k] == i);
        } else {
            assert(gone.contains(i));
            let k = choose|k: int| 0 <= k < gone.len() && gone[k] == i;
            assert(shown(present, true)[there.len() + k] == i);
        }
    }
}

/// Which of the three a column of a line is, by what it says.
proof fn lemma_labels_differ()
    ensures
        "      yes"@ != "   no(d) "@,
        "      yes"@ != "    no(K)"@,
        "   no(d) "@ != "    no(K)"@,
        right_aligned("    yes"@, 9) == "      yes"@,
        right_aligned(" no(d) "@, 9) == "   no(d) "@,
        right_aligned("  no(K)"@, 9) == "    no(K)"@,
        "  yes"@ != "   no"@,
{
    reveal_strlit("      yes");
    reveal_strlit("   no(d) ");
    reveal_strlit("    no(K)");
    reveal_strlit("    yes");
    reveal_strlit(" no(d) ");
    reveal_strlit("  no(K)");
    reveal_strlit("  yes");
    reveal_strlit("   no");
    assert("      yes"@[8] == 's' && "   no(d) "@[8] == ' ' && "    no(K)"@[8] == ')');
    assert("  yes"@[4] == 's' && "   no"@[4] == 'o');
    assert(right_aligned("    yes"@, 9) =~= "      yes"@);
    assert(right_aligned(" no(d) "@, 9) =~= "   no(d) "@);
    assert(right_aligned("  no(K)"@, 9) =~= "    no(K)"@);
}

/// The line of a photo has the id, the time of the capture, the length of the fish,
/// what can be made of the photo, whether its image is there, and the place.
///
/// What can be made of it is "yes" exactly where there are a depth map and a camera
/// matrix of its own, that is, where a run over all photos without a fallback goes
/// over it. It is "no(d)" exactly where there is no depth map, and "no(K)" in the
/// case that remains.
pub proof fn law_line_says_what_can_be_converted(
    e: PhotoListEntry,
    length: Option<String>,
    present: bool,
    text: Seq<char>,
) -> (columns: (Seq<char>, Seq<char>, Seq<char>))
    requires
        is_photo_line(e, length, present, text),
    ensures
        ({
            let (time, can, rgb) = columns;
            let id = right_aligned(integer(e.id as int, 0), 6);
            let fish = match length {
                Some(cm) => cm@,
                None => "         -"@,
            };
            let place = match e.place_name {
                Some(name) => name@,
                None => seq![],
            };
            &&& text == id + "  "@ + left_aligned(time, 20) + "  "@ + fish + "  "@ + can + "  "@
                + rgb + "  "@ + place
            &&& shows_time(e.utc_unix_timestamp as int, time)
            &&& can == "      yes"@ <==> e.has_depth && e.has_intrinsics
            &&& can == "      yes"@ <==> convertible_ids(seq![e], false, 1).contains(e.id)
            &&& can == "   no(d) "@ <==> !e.has_depth
            &&& can == "    no(K)"@ <==> e.has_depth && !e.has_intrinsics
            &&& rgb == "  yes"@ <==> present
            &&& rgb == "   no"@ <==> !present
        }),
{
    lemma_labels_differ();
    let time = choose|time: Seq<char>| #[trigger]
        shows_time(e.utc_unix_timestamp as int, time) && text == photo_text(
            e,
            time,
            length,
            present,
        );
    let can = right_aligned(convertible_label(e.has_depth, e.has_intrinsics), 9);
    reveal_with_fuel(convertible_ids, 2);
    let ids = convertible_ids(seq![e], false, 1);
    if e.has_depth && e.has_intrinsics {
        assert(ids[0] == e.id);
    } else {
        assert(ids =~= seq![]);
    }
    (time, can, rgb_label(present))
}

/// Where photos without their image are shown too, they come behind all the others, and the
/// photos of either kind stay in their order.
pub proof fn law_missing_images_come_last(present: Seq<bool>, j: int, k: int)
    requires
        0 <= j < k < shown(present, true).len(),
    ensures
        ({
            let (a, b) = (shown(present, true)[j], shown(present, true)[k]);
            &&& 0 <= a < present.len() && 0 <= b < present.len()
            &&& (present[a] && !present[b]) || (present[a] == present[b] && a < b)
        }),
        forall|i: int|
            0 <= i < present.len() && #[trigger] present[i] ==> shown(present, false).contains(i),
{
    law_places_in_order(present, true, present.len());
    law_places_in_order(present, false, present.len());
    let there = places(present, true, present.len());
    let gone = places(present, false, present.len());
    let all = shown(present, true);
    if j < there.len() {
        assert(all[j] == there[j]);
    } else {
        assert(all[j] == gone[j - there.len()]);
    }
    if k < there.len() {
        assert(all[k] == there[k]);
    } else {
        assert(all[k] == gone[k - there.len()]);
    }
}

/// The note on hidden photos tells how many there are, and where their images are missing.
pub proof fn law_note_tells_how_many_are_hidden(count: nat, root: Seq<char>)
    ensures
        hidden_text(count, root) == "("@ + decimal(count) + " hidden — RGB file missing under "@
            + root + "; pass --show-missing-rgb to include)"@,
        is_digits(decimal(count)),
        value(decimal(count)) == count,
{
    law_decimal_reads_back(count);
}

/// Which paths are looked up by their name in the directory: those that name something other
/// than `.` and `..` in front of their first slash, at place `n`, and go nowhere behind it.
pub proof fn law_bare_names_are_looked_up(path: Seq<char>, n: nat)
    requires
        n <= path.len(),
        forall|i: int| 0 <= i < n ==> path[i] != '/',
        n < path.len() ==> path[n as int] == '/',
    ensures
        first_slash(path) == n,
        is_bare(path) <==> {
            &&& n > 0
            &&& path.take(n as int) != seq!['.']
            &&& path.take(n as int) != seq!['.', '.']
            &&& forall|i: int|
                n <= i < path.len() ==> #[trigger] path[i] == '/' || (path[i] == '.' && path[i - 1]
                    == '/')
        },
        n == path.len() ==> path.take(n as int) == path,
{
    lemma_first_slash(path, n);
    if n == path.len() {
        assert(path.take(n as int) =~= path);
    }
}

/// The line above the photos, each name above its column.
pub proof fn law_header_names_the_columns()
    ensures
        header() == "    id  captured (utc)         fish (cm)   depth+K?   rgb?  place"@,
{
    reveal_strlit("id");
    reveal_strlit("  ");
    reveal_strlit("captured (utc)");
    reveal_strlit("fish (cm)");
    reveal_strlit("depth+K?");
    reveal_strlit("rgb?");
    reveal_strlit("  place");
    reveal_strlit("    id  captured (utc)         fish (cm)   depth+K?   rgb?  place");
    assert(header() =~= "    id  captured (utc)         fish (cm)   depth+K?   rgb?  place"@);
}

} // verus!
