//! The rows of a capture database, and the queries that read them.
//!
//! The columns used of the `photos` table are
//! - `id` and `utc_unix_timestamp`;
//! - `rgb_path`, the path of the JPEG;
//! - `depth_bytes`, `depth_width` and `depth_height`;
//! - `confidence_bytes`, `confidence_width` and `confidence_height`;
//! - `intrinsics_bytes`, the camera matrix at the resolution of the JPEG;
//! - `place_name` and `fish_length`, for the listing alone.
use vstd::prelude::*;

use crate::double::Double;
use crate::text::{integer, push_integer};

verus! {

/// Why a photo cannot be read.
#[derive(Debug, Clone)]
pub enum DbError {
    /// The database reported an error, in these words.
    Sqlite(String),
    /// There is no photo with this id.
    NotFound(i64),
}

impl DbError {
    /// The error in words.
    pub open spec fn spec_message(self) -> Seq<char> {
        match self {
            DbError::Sqlite(words) => "sqlite error: "@ + words@,
            DbError::NotFound(id) => "photo id "@ + integer(id as int, 0) + " not found"@,
        }
    }

    /// The error in words.
    pub fn message(&self) -> (r: String)
        ensures
            r@ == self.spec_message(),
    {
        let mut out = String::new();
        match self {
            DbError::Sqlite(words) => {
                out.append("sqlite error: ");
                out.append(words.as_str());
            },
            DbError::NotFound(id) => {
                out.append("photo id ");
                push_integer(&mut out, *id, 0);
                out.append(" not found");
            },
        }
        assert(out@ =~= self.spec_message());
        out
    }
}

/// The columns that the `photos` table of a database has.
///
/// Schema versions only ever add columns, so an older database lacks the newer
/// ones. The columns are looked at, since not every version of the app kept the
/// version number up to date.
#[derive(Debug, Clone)]
pub struct Schema {
    columns: Vec<String>,
}

impl View for Schema {
    type V = Set<Seq<char>>;

    closed spec fn view(&self) -> Set<Seq<char>> {
        Set::new(|c: Seq<char>| exists|i: int| 0 <= i < self.columns@.len() && self.columns@[i]@ == c)
    }
}

impl Schema {
    /// The schema with these columns.
    pub fn from_columns(columns: Vec<String>) -> (r: Schema)
        ensures
            forall|c: Seq<char>|
                r@.contains(c) <==> exists|i: int|
                    0 <= i < columns@.len() && #[trigger] columns@[i]@ == c,
    {
        Schema { columns }
    }

    /// Whether the table has the column.
    #[must_use]
    pub fn has(&self, col: &str) -> (r: bool)
        ensures
            r == self@.contains(col@),
    {
        let wanted: String = col.to_owned();
        let mut i: usize = 0;
        while i < self.columns.len()
            invariant
                i <= self.columns@.len(),
                wanted@ == col@,
                forall|j: int| 0 <= j < i ==> #[trigger] self.columns@[j]@ != col@,
            decreases self.columns@.len() - i,
        {
            if self.columns[i] == wanted {
                return true;
            }
            i = i + 1;
        }
        false
    }
}

/// What a listing line shows of a row.
#[derive(Debug, Clone)]
pub struct PhotoListEntry {
    pub id: i64,
    pub utc_unix_timestamp: i64,
    pub rgb_path: String,
    pub place_name: Option<String>,
    pub fish_length_m: Option<Double>,
    pub has_depth: bool,
    pub has_intrinsics: bool,
}

/// What the conversion of one photo needs of its row.
#[derive(Debug, Clone)]
pub struct PhotoRow {
    pub id: i64,
    pub utc_unix_timestamp: i64,
    pub rgb_path: String,
    /// Empty where the column is null.
    pub depth_bytes: Vec<u8>,
    pub depth_width: u32,
    pub depth_height: u32,
    pub confidence_bytes: Option<Vec<u8>>,
    pub confidence_width: u32,
    pub confidence_height: u32,
    /// `None` where the database has no such column, or the row has a null in it.
    pub intrinsics_bytes: Option<Vec<u8>>,
}

/// The column where the table has it, and the placeholder where not.
pub open spec fn column_or(
    schema: Set<Seq<char>>,
    column: Seq<char>,
    present: Seq<char>,
    placeholder: Seq<char>,
) -> Seq<char> {
    if schema.contains(column) {
        present
    } else {
        placeholder
    }
}

/// What the listing query selects, in the order that it selects them.
pub open spec fn list_columns(schema: Set<Seq<char>>) -> Seq<Seq<char>> {
    seq![
        "id"@,
        "utc_unix_timestamp"@,
        "rgb_path"@,
        column_or(schema, "place_name"@, "place_name"@, "NULL"@),
        column_or(schema, "fish_length"@, "fish_length"@, "NULL"@),
        "depth_bytes IS NOT NULL"@,
        column_or(schema, "intrinsics_bytes"@, "intrinsics_bytes IS NOT NULL"@, "0"@),
    ]
}

/// What the query for one photo selects, in the order that it selects them.
pub open spec fn fetch_columns(schema: Set<Seq<char>>) -> Seq<Seq<char>> {
    seq![
        "id"@,
        "utc_unix_timestamp"@,
        "rgb_path"@,
        "depth_bytes"@,
        "depth_width"@,
        "depth_height"@,
        "confidence_bytes"@,
        "confidence_width"@,
        "confidence_height"@,
        column_or(schema, "intrinsics_bytes"@, "intrinsics_bytes"@, "NULL"@),
    ]
}

/// The parts with commas between them.
pub open spec fn comma_separated(parts: Seq<Seq<char>>) -> Seq<char>
    decreases parts.len(),
{
    if parts.len() == 0 {
        seq![]
    } else if parts.len() == 1 {
        parts[0]
    } else {
        comma_separated(parts.drop_last()) + ", "@ + parts.last()
    }
}

fn join(parts: &Vec<&'static str>) -> (r: String)
    ensures
        r@ == comma_separated(parts@.map_values(|p: &'static str| p@)),
{
    let mut out = String::new();
    let ghost all = parts@.map_values(|p: &'static str| p@);
    let mut i: usize = 0;
    assert(out@ =~= comma_separated(all.take(0)));
    while i < parts.len()
        invariant
            i <= parts@.len(),
            all == parts@.map_values(|p: &'static str| p@),
            out@ == comma_separated(all.take(i as int)),
        decreases parts@.len() - i,
    {
        proof {
            assert(all.take(i + 1).drop_last() =~= all.take(i as int));
        }
        if i > 0 {
            out.append(", ");
        }
        out.append(parts[i]);
        assert(out@ =~= comma_separated(all.take(i + 1)));
        i = i + 1;
    }
    assert(all.take(i as int) =~= all);
    out
}

/// The query for the listing, against the columns that the database has. A
/// placeholder stands in for a column that is missing, so that the others stay
/// in their places.
pub fn list_query(schema: &Schema) -> (r: String)
    ensures
        r@ == "SELECT "@ + comma_separated(list_columns(schema@)) + " FROM photos ORDER BY id ASC"@,
{
    let place = if schema.has("place_name") {
        "place_name"
    } else {
        "NULL"
    };
    let fish = if schema.has("fish_length") {
        "fish_length"
    } else {
        "NULL"
    };
    let intrinsics = if schema.has("intrinsics_bytes") {
        "intrinsics_bytes IS NOT NULL"
    } else {
        "0"
    };
    let parts: Vec<&'static str> = vec![
        "id",
        "utc_unix_timestamp",
        "rgb_path",
        place,
        fish,
        "depth_bytes IS NOT NULL",
        intrinsics,
    ];
    assert(parts@.map_values(|p: &'static str| p@) =~= list_columns(schema@));
    let columns = join(&parts);
    let mut out = String::new();
    out.append("SELECT ");
    out.append(columns.as_str());
    out.append(" FROM photos ORDER BY id ASC");
    assert(out@ =~= "SELECT "@ + columns@ + " FROM photos ORDER BY id ASC"@);
    out
}

/// The query for one photo, whose id is its parameter.
pub fn fetch_query(schema: &Schema) -> (r: String)
    ensures
        r@ == "SELECT "@ + comma_separated(fetch_columns(schema@)) + " FROM photos WHERE id = ?1"@,
{
    let intrinsics = if schema.has("intrinsics_bytes") {
        "intrinsics_bytes"
    } else {
        "NULL"
    };
    let parts: Vec<&'static str> = vec![
        "id",
        "utc_unix_timestamp",
        "rgb_path",
        "depth_bytes",
        "depth_width",
        "depth_height",
        "confidence_bytes",
        "confidence_width",
        "confidence_height",
        intrinsics,
    ];
    assert(parts@.map_values(|p: &'static str| p@) =~= fetch_columns(schema@));
    let columns = join(&parts);
    let mut out = String::new();
    out.append("SELECT ");
    out.append(columns.as_str());
    out.append(" FROM photos WHERE id = ?1");
    assert(out@ =~= "SELECT "@ + columns@ + " FROM photos WHERE id = ?1"@);
    out
}

/// The values of the columns of a photo, as the database gives them.
#[derive(Debug, Clone)]
pub struct PhotoColumns {
    pub id: i64,
    pub utc_unix_timestamp: i64,
    pub rgb_path: String,
    pub depth_bytes: Option<Vec<u8>>,
    pub depth_width: i64,
    pub depth_height: i64,
    pub confidence_bytes: Option<Vec<u8>>,
    pub confidence_width: i64,
    pub confidence_height: i64,
    pub intrinsics_bytes: Option<Vec<u8>>,
}

/// The low 32 bits of a number.
fn low_word(x: i64) -> (r: u32)
    ensures
        r == x as int % 0x1_0000_0000,
{
    x.checked_rem_euclid(0x1_0000_0000).unwrap() as u32
}

impl PhotoRow {
    /// Whether this is the row that the columns hold: a depth blob that is null is
    /// empty, and of the sizes the low 32 bits count.
    pub open spec fn holds(self, columns: PhotoColumns) -> bool {
        &&& self.id == columns.id
        &&& self.utc_unix_timestamp == columns.utc_unix_timestamp
        &&& self.rgb_path == columns.rgb_path
        &&& self.depth_bytes@ == match columns.depth_bytes {
            Some(bytes) => bytes@,
            None => seq![],
        }
        &&& self.depth_width == columns.depth_width as int % 0x1_0000_0000
        &&& self.depth_height == columns.depth_height as int % 0x1_0000_0000
        &&& self.confidence_bytes == columns.confidence_bytes
        &&& self.confidence_width == columns.confidence_width as int % 0x1_0000_0000
        &&& self.confidence_height == columns.confidence_height as int % 0x1_0000_0000
        &&& self.intrinsics_bytes == columns.intrinsics_bytes
    }

    /// The row that the columns hold.
    pub fn from_columns(columns: PhotoColumns) -> (r: PhotoRow)
        ensures
            r.holds(columns),
    {
        let depth_bytes: Vec<u8> = match columns.depth_bytes {
            Some(bytes) => bytes,
            None => Vec::new(),
        };
        PhotoRow {
            id: columns.id,
            utc_unix_timestamp: columns.utc_unix_timestamp,
            rgb_path: columns.rgb_path,
            depth_bytes,
            depth_width: low_word(columns.depth_width),
            depth_height: low_word(columns.depth_height),
            confidence_bytes: columns.confidence_bytes,
            confidence_width: low_word(columns.confidence_width),
            confidence_height: low_word(columns.confidence_height),
            intrinsics_bytes: columns.intrinsics_bytes,
        }
    }
}

/// What the query for photo `id` found: its row, or that there is none.
pub fn fetched(found: Option<PhotoColumns>, id: i64) -> (r: Result<PhotoRow, DbError>)
    ensures
        match found {
            Some(columns) => r matches Ok(row) && row.holds(columns),
            None => r == Err::<PhotoRow, DbError>(DbError::NotFound(id)),
        },
{
    match found {
        Some(columns) => Ok(PhotoRow::from_columns(columns)),
        None => Err(DbError::NotFound(id)),
    }
}

/// Whether a path starts at the root.
pub open spec fn absolute(path: Seq<char>) -> bool {
    path.len() > 0 && path[0] == '/'
}

/// `path` below the directory `root`.
pub open spec fn below(root: Seq<char>, path: Seq<char>) -> Seq<char> {
    if root.len() == 0 || root.last() == '/' {
        root + path
    } else {
        root + seq!['/'] + path
    }
}

/// `path`, seen from the directory `root`.
pub open spec fn resolved(path: Seq<char>, root: Seq<char>) -> Seq<char> {
    if absolute(path) {
        path
    } else {
        below(root, path)
    }
}

/// Resolves `rgb_path` against the directory of the JPEGs. An absolute path
/// passes through unchanged.
///
/// The app stores bare file names; the user copies the JPEGs off the device
/// along with the database.
#[must_use]
pub fn resolve_rgb_path(rgb_path: &str, root: &str) -> (r: String)
    ensures
        r@ == resolved(rgb_path@, root@),
{
    if !rgb_path.is_empty() && rgb_path.get_char(0) == '/' {
        return rgb_path.to_owned();
    }
    let mut out: String = root.to_owned();
    let len = root.unicode_len();
    if len > 0 && root.get_char(len - 1) != '/' {
        out.append("/");
        proof {
            reveal_strlit("/");
        }
    }
    out.append(rgb_path);
    assert(out@ =~= below(root@, rgb_path@));
    out
}

/// Whichever columns a database has, each value is found in the same place of a
/// listing row, or a placeholder in its stead.
pub proof fn law_list_places_are_stable(schema: Set<Seq<char>>)
    ensures
        list_columns(schema).len() == 7,
        list_columns(schema)[0] == "id"@,
        list_columns(schema)[1] == "utc_unix_timestamp"@,
        list_columns(schema)[2] == "rgb_path"@,
        list_columns(schema)[3] == "place_name"@ || list_columns(schema)[3] == "NULL"@,
        list_columns(schema)[4] == "fish_length"@ || list_columns(schema)[4] == "NULL"@,
        list_columns(schema)[5] == "depth_bytes IS NOT NULL"@,
        list_columns(schema)[6] == "intrinsics_bytes IS NOT NULL"@ || list_columns(schema)[6]
            == "0"@,
{
}

/// Whichever columns a database has, each value is found in the same place of a
/// photo's row, or a placeholder in its stead.
pub proof fn law_fetch_places_are_stable(schema: Set<Seq<char>>)
    ensures
        fetch_columns(schema).len() == 10,
        fetch_columns(schema).take(9) == fetch_columns(Set::empty()).take(9),
        fetch_columns(schema)[9] == "intrinsics_bytes"@ || fetch_columns(schema)[9] == "NULL"@,
{
    assert(fetch_columns(schema).take(9) =~= fetch_columns(Set::empty()).take(9));
}

/// A path resolved against an absolute directory stays what it is when it is
/// resolved again.
pub proof fn law_resolving_again_changes_nothing(
    path: Seq<char>,
    root: Seq<char>,
    other: Seq<char>,
)
    requires
        absolute(root),
    ensures
        resolved(resolved(path, root), other) == resolved(path, root),
{
}

/// A row is what the columns hold: blobs byte by byte, a missing depth blob as an empty
/// one, and sizes as they are, if 32 bits can hold them, or else up to a multiple of
/// `2^32`.
pub proof fn law_row_is_what_the_columns_hold(row: PhotoRow, columns: PhotoColumns)
    requires
        row.holds(columns),
    ensures
        row.id == columns.id,
        row.utc_unix_timestamp == columns.utc_unix_timestamp,
        row.rgb_path == columns.rgb_path,
        columns.depth_bytes matches Some(bytes) ==> row.depth_bytes@ == bytes@,
        columns.depth_bytes is None ==> row.depth_bytes@.len() == 0,
        row.confidence_bytes == columns.confidence_bytes,
        row.intrinsics_bytes == columns.intrinsics_bytes,
        0 <= columns.depth_width <= u32::MAX ==> row.depth_width == columns.depth_width,
        0 <= columns.depth_height <= u32::MAX ==> row.depth_height == columns.depth_height,
        0 <= columns.confidence_width <= u32::MAX ==> row.confidence_width
            == columns.confidence_width,
        0 <= columns.confidence_height <= u32::MAX ==> row.confidence_height
            == columns.confidence_height,
        (columns.depth_width - row.depth_width) % 0x1_0000_0000 == 0,
        (columns.depth_height - row.depth_height) % 0x1_0000_0000 == 0,
        (columns.confidence_width - row.confidence_width) % 0x1_0000_0000 == 0,
        (columns.confidence_height - row.confidence_height) % 0x1_0000_0000 == 0,
{
}

/// A column that the table has is asked for by its name, and one that it lacks by a
/// placeholder.
pub proof fn law_columns_are_asked_for_by_name(schema: Set<Seq<char>>)
    ensures
        list_columns(schema) == seq![
            "id"@,
            "utc_unix_timestamp"@,
            "rgb_path"@,
            if schema.contains("place_name"@) {
                "place_name"@
            } else {
                "NULL"@
            },
            if schema.contains("fish_length"@) {
                "fish_length"@
            } else {
                "NULL"@
            },
            "depth_bytes IS NOT NULL"@,
            if schema.contains("intrinsics_bytes"@) {
                "intrinsics_bytes IS NOT NULL"@
            } else {
                "0"@
            },
        ],
        fetch_columns(schema) == seq![
            "id"@,
            "utc_unix_timestamp"@,
            "rgb_path"@,
            "depth_bytes"@,
            "depth_width"@,
            "depth_height"@,
            "confidence_bytes"@,
            "confidence_width"@,
            "confidence_height"@,
            if schema.contains("intrinsics_bytes"@) {
                "intrinsics_bytes"@
            } else {
                "NULL"@
            },
        ],
{
}

/// Parts that are joined stay in order, with a comma and a space between any two.
pub proof fn law_joining_goes_part_by_part(a: Seq<Seq<char>>, b: Seq<Seq<char>>)
    ensures
        a.len() > 0 && b.len() > 0 ==> comma_separated(a + b) == comma_separated(a) + ", "@
            + comma_separated(b),
        forall|s: Seq<char>| #[trigger] comma_separated(seq![s]) == s,
        comma_separated(seq![]) == Seq::<char>::empty(),
    decreases b.len(),
{
    if a.len() > 0 && b.len() > 0 {
        let all = a + b;
        assert(all.drop_last() =~= a + b.drop_last());
        if b.len() > 1 {
            law_joining_goes_part_by_part(a, b.drop_last());
            assert(comma_separated(all) =~= comma_separated(a) + ", "@ + comma_separated(b));
        } else {
            assert(all.drop_last() =~= a);
        }
    }
}

/// A path from the root stays what it is. Any other path comes below the directory, with
/// one slash between them, unless the directory is empty or ends in a slash.
pub proof fn law_relative_paths_come_below_the_root(path: Seq<char>, root: Seq<char>)
    ensures
        path.len() > 0 && path[0] == '/' ==> resolved(path, root) == path,
        !(path.len() > 0 && path[0] == '/') ==> {
            let bare = root.len() == 0 || root[root.len() - 1] == '/';
            &&& bare ==> resolved(path, root) == root + path
            &&& !bare ==> resolved(path, root) == root + seq!['/'] + path
        },
{
}

/// What is said of a photo that is not there, and of an error of the database.
pub proof fn law_words_of_database_errors(id: i64, words: String)
    ensures
        DbError::NotFound(id).spec_message() == "photo id "@ + integer(id as int, 0)
            + " not found"@,
        DbError::Sqlite(words).spec_message() == "sqlite error: "@ + words@,
{
}

} // verus!
