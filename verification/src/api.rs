//! The request-facing shapes and the pure decisions behind the routes:
//! request bodies, audit-log rows, cookie parsing, byte-range math for
//! streaming, and the static file server's header choices.

use vstd::prelude::*;

use crate::entity::{MusicID, TagKey, UserID};
use crate::strutil::{first_index_of, str_eq};

verus! {

use vstd::string::StrSliceExecFns;
use vstd::string::StringExecFns;

/// Body of a tag deletion request.
pub struct DeleteTag {
    pub music_id: MusicID,
    pub key: TagKey,
}

/// Body of a merge request.
pub struct MergeMusic {
    pub id1: MusicID,
    pub id2: MusicID,
}

/// Body of an upload request.
pub struct UploadYoutube {
    pub url: String,
    pub uid: Option<i32>,
    pub index_start: Option<usize>,
    pub index_stop: Option<usize>,
}

/// Body of a configuration update request.
pub struct ConfigUpdate {
    pub key: String,
    pub value: String,
}

/// Body of a user creation request.
pub struct UserCreatePOST {
    pub name: String,
}

/// Which table an audit row speaks of.
pub enum LogType {
    User,
    Tag,
    Music,
}

/// What was done to it.
pub enum LogAction {
    Create,
    Update,
    Delete,
}

/// One audit row, as the mutation handlers record them.
pub struct DbLog {
    pub user_id: UserID,
    pub ip: String,
    pub type_: LogType,
    pub action: LogAction,
    pub music_id: Option<MusicID>,
    pub target_key: Option<TagKey>,
    pub target_value: Option<String>,
}

impl LogType {
    /// The name this log type is stored under.
    pub fn as_str(&self) -> (r: &'static str)
        ensures
            r@ == (match *self {
                LogType::User => "user"@,
                LogType::Tag => "tag"@,
                LogType::Music => "music"@,
            }),
    {
        match self {
            LogType::User => "user",
            LogType::Tag => "tag",
            LogType::Music => "music",
        }
    }
}

impl LogAction {
    /// The name this log action is stored under.
    pub fn as_str(&self) -> (r: &'static str)
        ensures
            r@ == (match *self {
                LogAction::Create => "create"@,
                LogAction::Update => "update"@,
                LogAction::Delete => "delete"@,
            }),
    {
        match self {
            LogAction::Create => "create",
            LogAction::Update => "update",
            LogAction::Delete => "delete",
        }
    }
}

/// Request cookies, as name/value pairs in header order.
pub struct Cookies(pub Vec<(String, String)>);

impl Cookies {
    /// The value of the named cookie, if it was sent.
    pub fn get(&self, name: &str) -> (r: Option<&String>)
        ensures
            match r {
                Some(v) => exists|i: int|
                    0 <= i < self.0@.len() && (#[trigger] self.0@[i]).0@ == name@ && self.0@[i].1
                        == v,
                None => forall|i: int|
                    0 <= i < self.0@.len() ==> (#[trigger] self.0@[i]).0@ != name@,
            },
    {
        let mut i: usize = 0;
        while i < self.0.len()
            invariant
                0 <= i <= self.0@.len(),
                forall|j: int| 0 <= j < i ==> (#[trigger] self.0@[j]).0@ != name@,
            decreases self.0@.len() - i,
        {
            if str_eq(self.0[i].0.as_str(), name) {
                return Some(&self.0[i].1);
            }
            i = i + 1;
        }
        None
    }
}

/// The first `; ` separator at or after `i`, or -1.
pub open spec fn first_cookie_sep(s: Seq<char>, i: int) -> int
    decreases s.len() - i,
{
    if !(0 <= i) || i + 2 > s.len() {
        -1
    } else if s[i] == ';' && s[i + 1] == ' ' {
        i
    } else {
        first_cookie_sep(s, i + 1)
    }
}

/// What one `name=value` segment contributes: the pair split on the first
/// `=`, or nothing when there is no `=`.
pub open spec fn spec_cookie_pair(seg: Seq<char>) -> Option<(Seq<char>, Seq<char>)> {
    let v = first_index_of(seg, '=', 0);
    if v >= 0 {
        Some((seg.subrange(0, v), seg.subrange(v + 1, seg.len() as int)))
    } else {
        None
    }
}

/// The pairs of a whole cookie header, splitting segments on `; `.
pub open spec fn spec_parse_cookies(s: Seq<char>) -> Seq<(Seq<char>, Seq<char>)>
    decreases s.len(),
{
    let sep = first_cookie_sep(s, 0);
    let seg = if sep >= 0 {
        s.subrange(0, sep)
    } else {
        s
    };
    let head = match spec_cookie_pair(seg) {
        Some(p) => seq![p],
        None => Seq::empty(),
    };
    if sep >= 0 && sep + 2 <= s.len() {
        head + spec_parse_cookies(s.subrange(sep + 2, s.len() as int))
    } else {
        head
    }
}

fn first_cookie_sep_x(s: &str, n: usize) -> (r: Option<usize>)
    requires
        n == s@.len(),
    ensures
        match r {
            Some(i) => first_cookie_sep(s@, 0) == i && i + 2 <= n,
            None => first_cookie_sep(s@, 0) == -1,
        },
{
    if n < 2 {
        return None;
    }
    let mut i: usize = 0;
    while i <= n - 2
        invariant
            0 <= i,
            n >= 2,
            i <= n - 1,
            n == s@.len(),
            first_cookie_sep(s@, 0) == first_cookie_sep(s@, i as int),
        decreases n - i,
    {
        if s.get_char(i) == ';' && s.get_char(i + 1) == ' ' {
            return Some(i);
        }
        i = i + 1;
    }
    None
}

fn cookie_pair_x(seg: &str) -> (r: Option<(String, String)>)
    ensures
        match r {
            Some(p) => spec_cookie_pair(seg@) == Some((p.0@, p.1@)),
            None => spec_cookie_pair(seg@) is None,
        },
{
    let n = seg.unicode_len();
    match crate::strutil::find_char(seg, '=') {
        Some(v) => {
            let name = String::from_str(seg.substring_char(0, v));
            let value = String::from_str(seg.substring_char(v + 1, n));
            Some((name, value))
        },
        None => None,
    }
}

/// Splits a cookie header into its `name=value` pairs; a segment without
/// an `=` is dropped.
pub fn parse_cookies(x: &str) -> (r: Vec<(String, String)>)
    ensures
        r@.map_values(|p: (String, String)| (p.0@, p.1@)) == spec_parse_cookies(x@),
    decreases x@.len(),
{
    let n = x.unicode_len();
    let mut out: Vec<(String, String)> = Vec::new();
    match first_cookie_sep_x(x, n) {
        Some(sep) => {
            let seg = x.substring_char(0, sep);
            match cookie_pair_x(seg) {
                Some(p) => {
                    out.push(p);
                },
                None => {
                },
            }
            let rest = x.substring_char(sep + 2, n);
            let mut tail = parse_cookies(rest);
            let ghost out_before = out@;
            let ghost tail_before = tail@;
            out.append(&mut tail);
            proof {
                assert(out@ =~= out_before + tail_before);
                assert(out@.map_values(|p: (String, String)| (p.0@, p.1@)) =~= spec_parse_cookies(
                    x@,
                ));
            }
        },
        None => {
            match cookie_pair_x(x) {
                Some(p) => {
                    out.push(p);
                },
                None => {
                },
            }
            proof {
                assert(out@.map_values(|p: (String, String)| (p.0@, p.1@)) =~= spec_parse_cookies(
                    x@,
                ));
            }
        },
    }
    out
}

/// Does the string end in this suffix?
pub open spec fn spec_ends_with(s: Seq<char>, suffix: Seq<char>) -> bool {
    s.len() >= suffix.len() && s.subrange(s.len() - suffix.len(), s.len() as int) == suffix
}

/// Does the path end in this suffix?
pub fn ends_with(s: &str, suffix: &str) -> (r: bool)
    ensures
        r == spec_ends_with(s@, suffix@),
{
    let n = s.unicode_len();
    let m = suffix.unicode_len();
    if n < m {
        return false;
    }
    str_eq(s.substring_char(n - m, n), suffix)
}

/// The static file server, rooted at one directory.
pub struct StaticHandle {
    pub dir_location: String,
}

impl StaticHandle {
    /// Should this file be served with a long cache header?
    pub fn should_cache(url: &str) -> (r: bool)
        ensures
            r == (spec_ends_with(url@, "jpg"@) || spec_ends_with(url@, "png"@) || spec_ends_with(
                url@,
                "woff2"@,
            ) || spec_ends_with(url@, "js"@) || spec_ends_with(url@, "wasm"@) || spec_ends_with(
                url@,
                "css"@,
            )),
    {
        ends_with(url, "jpg") || ends_with(url, "png") || ends_with(url, "woff2") || ends_with(
            url,
            "js",
        ) || ends_with(url, "wasm") || ends_with(url, "css")
    }

    /// Does this file need the wasm content type?
    pub fn is_wasm(url: &str) -> (r: bool)
        ensures
            r == spec_ends_with(url@, "wasm"@),
    {
        ends_with(url, "wasm")
    }
}

/// A slice of a streamed file, with the content range it answers.
pub struct MusicMetadata {
    pub buf: Vec<u8>,
    pub range_size: (u64, u64, u64),
    pub content_type: String,
}

/// The content type a source path is served under.
pub fn content_type_of(path: &str) -> (r: &'static str)
    ensures
        r@ == (if spec_ends_with(path@, "mp3"@) {
            "audio/mpeg"@
        } else if spec_ends_with(path@, "ogg"@) {
            "audio/ogg"@
        } else if spec_ends_with(path@, "m4a"@) {
            "audio/mp4"@
        } else if spec_ends_with(path@, "webm"@) {
            "audio/webm"@
        } else {
            ""@
        }),
{
    if ends_with(path, "mp3") {
        "audio/mpeg"
    } else if ends_with(path, "ogg") {
        "audio/ogg"
    } else if ends_with(path, "m4a") {
        "audio/mp4"
    } else if ends_with(path, "webm") {
        "audio/webm"
    } else {
        ""
    }
}

/// The content-range triple for a ranged read: first byte, last byte
/// clamped to both the request and the file, and the file's total size.
pub fn range_size_of(start: u64, length: u64, total: u64) -> (r: (u64, u64, u64))
    requires
        start + length <= u64::MAX,
    ensures
        r.0 == start,
        r.2 == total,
        r.1 == (if start + length >= 1 && total >= 1 {
            if start + length - 1 <= total - 1 {
                start + length - 1
            } else {
                total - 1
            }
        } else {
            0
        }),
{
    let upper = start + length;
    let a: u64 = if upper >= 1 {
        upper - 1
    } else {
        0
    };
    let b: u64 = if total >= 1 {
        total - 1
    } else {
        0
    };
    let end: u64 = if upper >= 1 && total >= 1 {
        if a <= b {
            a
        } else {
            b
        }
    } else {
        0
    };
    (start, end, total)
}

/// Splits a database URL into its base and the database name: the name is
/// what follows the last `/`, cut at the first `?`.
pub fn base_and_db(url: &str) -> (r: Option<(String, String)>)
    ensures
        ({
            let rev_slash = last_index_of(url@, '/');
            match r {
                Some(p) => {
                    &&& rev_slash >= 0
                    &&& p.0@ == url@.subrange(0, rev_slash)
                    &&& ({
                        let tail = url@.subrange(rev_slash + 1, url@.len() as int);
                        let q = first_index_of(tail, '?', 0);
                        p.1@ == (if q >= 0 {
                            tail.subrange(0, q)
                        } else {
                            tail
                        })
                    })
                },
                None => rev_slash == -1,
            }
        }),
{
    let n = url.unicode_len();
    let mut slash: Option<usize> = None;
    let mut i: usize = 0;
    while i < n
        invariant
            0 <= i <= n,
            n == url@.len(),
            match slash {
                Some(v) => {
                    &&& v < i
                    &&& url@[v as int] == '/'
                    &&& forall|j: int| v < j < i ==> url@[j] != '/'
                },
                None => forall|j: int| 0 <= j < i ==> url@[j] != '/',
            },
        decreases n - i,
    {
        if url.get_char(i) == '/' {
            slash = Some(i);
        }
        i = i + 1;
    }
    match slash {
        None => {
            proof {
                lemma_last_index_none(url@, n as int);
            }
            None
        },
        Some(v) => {
            proof {
                lemma_last_index_at(url@, v as int, n as int);
            }
            let base = String::from_str(url.substring_char(0, v));
            let tail = url.substring_char(v + 1, n);
            let name = match crate::strutil::find_char(tail, '?') {
                Some(q) => String::from_str(tail.substring_char(0, q)),
                None => String::from_str(tail),
            };
            Some((base, name))
        },
    }
}

/// Index of the last `/`-style occurrence of `c`, or -1.
pub open spec fn last_index_of(s: Seq<char>, c: char) -> int {
    last_index_from(s, c, s.len() as int)
}

/// Index of the last occurrence of `c` before `j`, or -1.
pub open spec fn last_index_from(s: Seq<char>, c: char, j: int) -> int
    decreases j,
{
    if j <= 0 || j > s.len() {
        -1
    } else if s[j - 1] == c {
        j - 1
    } else {
        last_index_from(s, c, j - 1)
    }
}

proof fn lemma_last_index_none(s: Seq<char>, j: int)
    requires
        0 <= j <= s.len(),
        forall|i: int| 0 <= i < j ==> s[i] != '/',
    ensures
        last_index_from(s, '/', j) == -1,
    decreases j,
{
    if j > 0 {
        lemma_last_index_none(s, j - 1);
    }
}

proof fn lemma_last_index_at(s: Seq<char>, v: int, j: int)
    requires
        0 <= v < j <= s.len(),
        s[v] == '/',
        forall|i: int| v < i < j ==> s[i] != '/',
    ensures
        last_index_from(s, '/', j) == v,
    decreases j,
{
    if v < j - 1 {
        lemma_last_index_at(s, v, j - 1);
    }
}

/// The codec field of a downloader report; a literal `none` means the
/// codec is absent, not a codec called none.
pub struct Codec(pub Option<String>);

impl Codec {
    /// Reads the raw field, turning the `none` marker into absence.
    pub fn from_raw(v: Option<String>) -> (r: Codec)
        ensures
            r.0 == (match v {
                Some(s) => if s@ == "none"@ {
                    None::<String>
                } else {
                    Some(s)
                },
                None => None::<String>,
            }),
    {
        match v {
            Some(s) => {
                if str_eq(s.as_str(), "none") {
                    Codec(None)
                } else {
                    Codec(Some(s))
                }
            },
            None => Codec(None),
        }
    }
}

/// One downloadable fragment of a media report.
pub struct Fragment {
    pub filesize: Option<i64>,
    pub path: Option<String>,
    pub url: Option<String>,
}

/// One subtitle track of a media report.
pub struct Subtitle {
    pub data: Option<String>,
    pub ext: Option<String>,
    pub url: Option<String>,
}

/// One thumbnail of a media report.
pub struct Thumbnail {
    pub filesize: Option<i64>,
    pub height: Option<i64>,
    pub id: Option<String>,
    pub preference: Option<i64>,
    pub url: Option<String>,
    pub width: Option<i64>,
}

/// The bare `_type` probe of a downloader report.
pub struct JustType {
    pub type_: Option<String>,
}

/// Does some row hold an error?
pub open spec fn spec_has_err<T, E>(s: Seq<Result<T, E>>) -> bool {
    exists|i: int| 0 <= i < s.len() && (#[trigger] s[i]) matches Err(_)
}

/// Collects row results, stopping at the first error.
#[verifier::loop_isolation(false)]
pub fn collect_rows<T, E>(rows: Vec<Result<T, E>>) -> (r: Result<Vec<T>, E>)
    ensures
        match r {
            Ok(v) => v@.len() == rows@.len() && forall|i: int|
                0 <= i < rows@.len() ==> rows@[i] == Ok::<T, E>(#[trigger] v@[i]),
            Err(_) => spec_has_err(rows@),
        },
{
    let ghost all = rows@;
    let mut rows = rows;
    let mut out: Vec<T> = Vec::new();
    while rows.len() > 0
        invariant
            out@.len() + rows@.len() == all.len(),
            rows@ == all.subrange(out@.len() as int, all.len() as int),
            forall|j: int| 0 <= j < out@.len() ==> all[j] == Ok::<T, E>(#[trigger] out@[j]),
        decreases rows@.len(),
    {
        let ghost i = out@.len() as int;
        let x = rows.remove(0);
        proof {
            assert(all[i] == x);
            assert(rows@ =~= all.subrange(i + 1, all.len() as int));
        }
        match x {
            Ok(v) => {
                out.push(v);
            },
            Err(e) => {
                proof {
                    assert((all[i]) matches Err(_));
                    assert(spec_has_err(all));
                }
                return Err(e);
            },
        }
    }
    Ok(out)
}

} // verus!
