//! Entities of the store: identifiers, users, tags and their keys, and the
//! replication unit sent to subscribers.
//!
//! A `TagKey` has exactly one canonical string; decoding is total and falls
//! back to `Other`. The round-trip lemmas at the bottom state this precisely.

use vstd::prelude::*;

use crate::strutil::{find_char, first_index_of, str_eq};

verus! {

use vstd::string::StrSliceExecFns;
use vstd::string::StringExecFns;

/// Identifier of a music row.
#[derive(Clone, Copy, Debug, PartialEq, Eq, Structural)]
pub struct MusicID(pub i32);

/// Identifier of a user row.
#[derive(Clone, Copy, Debug, PartialEq, Eq, Structural)]
pub struct UserID(pub i32);

/// A music entry. All descriptive data lives in tags.
#[derive(Clone, Copy, Debug, PartialEq, Eq, Structural)]
pub struct Music {
    pub id: MusicID,
}

/// A user account.
#[derive(Debug)]
pub struct User {
    pub id: UserID,
    pub name: String,
}

/// Mathematical value of a `User`.
pub struct SpecUser {
    pub id: int,
    pub name: Seq<char>,
}

impl View for User {
    type V = SpecUser;

    open spec fn view(&self) -> SpecUser {
        SpecUser { id: self.id.0 as int, name: self.name@ }
    }
}

impl Clone for User {
    fn clone(&self) -> (r: Self)
        ensures
            r == *self,
    {
        User { id: self.id, name: self.name.clone() }
    }
}

impl PartialEq for User {
    fn eq(&self, o: &User) -> (r: bool) {
        self.id == o.id && self.name == o.name
    }
}

impl Eq for User {}

impl vstd::std_specs::cmp::PartialEqSpecImpl for User {
    open spec fn obeys_eq_spec() -> bool {
        true
    }

    open spec fn eq_spec(&self, o: &User) -> bool {
        self@ == o@
    }
}

/// A tag vector payload: 32-bit lanes held as their bit patterns, in the
/// order they were stored.
#[derive(Debug)]
pub struct Vector(pub Vec<u32>);

impl View for Vector {
    type V = Seq<u32>;

    open spec fn view(&self) -> Seq<u32> {
        self.0@
    }
}

/// `Vec` equality means the views agree, which is what the models speak of.
fn vec_u32_eq(a: &Vec<u32>, b: &Vec<u32>) -> (r: bool)
    ensures
        r == (a@ == b@),
{
    let r = a == b;
    proof {
        if r {
            assert(a@ =~= b@);
        }
    }
    r
}

impl Clone for Vector {
    fn clone(&self) -> (r: Self)
        ensures
            r@ == self@,
    {
        let v = self.0.clone();
        proof {
            assert forall|i: int| 0 <= i < self.0@.len() implies v@[i] == self.0@[i] by {
                assert(vstd::pervasive::cloned::<u32>(self.0[i], v[i]));
            }
            assert(v@ =~= self.0@);
        }
        Vector(v)
    }
}

impl PartialEq for Vector {
    fn eq(&self, o: &Vector) -> (r: bool) {
        vec_u32_eq(&self.0, &o.0)
    }
}

impl Eq for Vector {}

impl vstd::std_specs::cmp::PartialEqSpecImpl for Vector {
    open spec fn obeys_eq_spec() -> bool {
        true
    }

    open spec fn eq_spec(&self, o: &Vector) -> bool {
        self.0@ == o.0@
    }
}

/// Wire shape of an optional date string.
#[derive(Debug)]
pub struct DateSerde(Option<String>);

/// The key taxonomy: a closed set of well-known names, one parameterized
/// ownership key, and a catch-all for forward compatibility.
#[derive(Debug)]
pub enum TagKey {
    LocalMP3,
    LocalWEBM,
    LocalM4A,
    LocalOGG,
    YoutubeDLURL,
    YoutubeDLVideoID,
    YoutubeDLWorkerTreated,
    YoutubeDLOriginalTitle,
    YoutubeDLPlaylist,
    Title,
    Artist,
    CompressedThumbnail,
    Thumbnail,
    Duration,
    Embedding,
    FullEmbedding,
    /// "this music is in the library of the user named by the parameter"
    UserLibrary(String),
    Other(String),
}

/// Mathematical value of a `TagKey`.
pub enum SpecKey {
    LocalMP3,
    LocalWEBM,
    LocalM4A,
    LocalOGG,
    YoutubeDLURL,
    YoutubeDLVideoID,
    YoutubeDLWorkerTreated,
    YoutubeDLOriginalTitle,
    YoutubeDLPlaylist,
    Title,
    Artist,
    CompressedThumbnail,
    Thumbnail,
    Duration,
    Embedding,
    FullEmbedding,
    UserLibrary(Seq<char>),
    Other(Seq<char>),
}

impl View for TagKey {
    type V = SpecKey;

    open spec fn view(&self) -> SpecKey {
        match self {
            TagKey::LocalMP3 => SpecKey::LocalMP3,
            TagKey::LocalWEBM => SpecKey::LocalWEBM,
            TagKey::LocalM4A => SpecKey::LocalM4A,
            TagKey::LocalOGG => SpecKey::LocalOGG,
            TagKey::YoutubeDLURL => SpecKey::YoutubeDLURL,
            TagKey::YoutubeDLVideoID => SpecKey::YoutubeDLVideoID,
            TagKey::YoutubeDLWorkerTreated => SpecKey::YoutubeDLWorkerTreated,
            TagKey::YoutubeDLOriginalTitle => SpecKey::YoutubeDLOriginalTitle,
            TagKey::YoutubeDLPlaylist => SpecKey::YoutubeDLPlaylist,
            TagKey::Title => SpecKey::Title,
            TagKey::Artist => SpecKey::Artist,
            TagKey::CompressedThumbnail => SpecKey::CompressedThumbnail,
            TagKey::Thumbnail => SpecKey::Thumbnail,
            TagKey::Duration => SpecKey::Duration,
            TagKey::Embedding => SpecKey::Embedding,
            TagKey::FullEmbedding => SpecKey::FullEmbedding,
            TagKey::UserLibrary(p) => SpecKey::UserLibrary(p@),
            TagKey::Other(s) => SpecKey::Other(s@),
        }
    }
}

impl Clone for TagKey {
    fn clone(&self) -> (r: Self)
        ensures
            r == *self,
    {
        match self {
            TagKey::LocalMP3 => TagKey::LocalMP3,
            TagKey::LocalWEBM => TagKey::LocalWEBM,
            TagKey::LocalM4A => TagKey::LocalM4A,
            TagKey::LocalOGG => TagKey::LocalOGG,
            TagKey::YoutubeDLURL => TagKey::YoutubeDLURL,
            TagKey::YoutubeDLVideoID => TagKey::YoutubeDLVideoID,
            TagKey::YoutubeDLWorkerTreated => TagKey::YoutubeDLWorkerTreated,
            TagKey::YoutubeDLOriginalTitle => TagKey::YoutubeDLOriginalTitle,
            TagKey::YoutubeDLPlaylist => TagKey::YoutubeDLPlaylist,
            TagKey::Title => TagKey::Title,
            TagKey::Artist => TagKey::Artist,
            TagKey::CompressedThumbnail => TagKey::CompressedThumbnail,
            TagKey::Thumbnail => TagKey::Thumbnail,
            TagKey::Duration => TagKey::Duration,
            TagKey::Embedding => TagKey::Embedding,
            TagKey::FullEmbedding => TagKey::FullEmbedding,
            TagKey::UserLibrary(p) => TagKey::UserLibrary(p.clone()),
            TagKey::Other(s) => TagKey::Other(s.clone()),
        }
    }
}

impl PartialEq for TagKey {
    fn eq(&self, o: &TagKey) -> (r: bool) {
        match (self, o) {
            (TagKey::LocalMP3, TagKey::LocalMP3) => true,
            (TagKey::LocalWEBM, TagKey::LocalWEBM) => true,
            (TagKey::LocalM4A, TagKey::LocalM4A) => true,
            (TagKey::LocalOGG, TagKey::LocalOGG) => true,
            (TagKey::YoutubeDLURL, TagKey::YoutubeDLURL) => true,
            (TagKey::YoutubeDLVideoID, TagKey::YoutubeDLVideoID) => true,
            (TagKey::YoutubeDLWorkerTreated, TagKey::YoutubeDLWorkerTreated) => true,
            (TagKey::YoutubeDLOriginalTitle, TagKey::YoutubeDLOriginalTitle) => true,
            (TagKey::YoutubeDLPlaylist, TagKey::YoutubeDLPlaylist) => true,
            (TagKey::Title, TagKey::Title) => true,
            (TagKey::Artist, TagKey::Artist) => true,
            (TagKey::CompressedThumbnail, TagKey::CompressedThumbnail) => true,
            (TagKey::Thumbnail, TagKey::Thumbnail) => true,
            (TagKey::Duration, TagKey::Duration) => true,
            (TagKey::Embedding, TagKey::Embedding) => true,
            (TagKey::FullEmbedding, TagKey::FullEmbedding) => true,
            (TagKey::UserLibrary(a), TagKey::UserLibrary(b)) => *a == *b,
            (TagKey::Other(a), TagKey::Other(b)) => *a == *b,
            _ => false,
        }
    }
}

impl Eq for TagKey {}

impl vstd::std_specs::cmp::PartialEqSpecImpl for TagKey {
    open spec fn obeys_eq_spec() -> bool {
        true
    }

    open spec fn eq_spec(&self, o: &TagKey) -> bool {
        self@ == o@
    }
}

/// A typed key/value fact attached to one music, unique per
/// `(music_id, key)`.
#[derive(Debug)]
pub struct Tag {
    pub music_id: MusicID,
    pub key: TagKey,
    pub text: Option<String>,
    pub integer: Option<i32>,
    pub date: Option<String>,
    pub vector: Option<Vector>,
}

/// Mathematical value of a `Tag`.
pub struct SpecTag {
    pub music_id: int,
    pub key: SpecKey,
    pub text: Option<Seq<char>>,
    pub integer: Option<int>,
    pub date: Option<Seq<char>>,
    pub vector: Option<Seq<u32>>,
}

pub open spec fn view_opt_str(o: Option<String>) -> Option<Seq<char>> {
    match o {
        Some(s) => Some(s@),
        None => None,
    }
}

pub open spec fn view_opt_i32(o: Option<i32>) -> Option<int> {
    match o {
        Some(v) => Some(v as int),
        None => None,
    }
}

pub open spec fn view_opt_vector(o: Option<Vector>) -> Option<Seq<u32>> {
    match o {
        Some(v) => Some(v@),
        None => None,
    }
}

impl View for Tag {
    type V = SpecTag;

    open spec fn view(&self) -> SpecTag {
        SpecTag {
            music_id: self.music_id.0 as int,
            key: self.key@,
            text: view_opt_str(self.text),
            integer: view_opt_i32(self.integer),
            date: view_opt_str(self.date),
            vector: view_opt_vector(self.vector),
        }
    }
}

pub fn clone_opt_string(o: &Option<String>) -> (r: Option<String>)
    ensures
        r == *o,
{
    match o {
        Some(s) => Some(s.clone()),
        None => None,
    }
}

impl Clone for Tag {
    fn clone(&self) -> (r: Self)
        ensures
            r@ == self@,
    {
        Tag {
            music_id: self.music_id,
            key: self.key.clone(),
            text: clone_opt_string(&self.text),
            integer: self.integer,
            date: clone_opt_string(&self.date),
            vector: match &self.vector {
                Some(v) => Some(v.clone()),
                None => None,
            },
        }
    }
}

fn opt_string_eq(a: &Option<String>, b: &Option<String>) -> (r: bool)
    ensures
        r == (view_opt_str(*a) == view_opt_str(*b)),
{
    match (a, b) {
        (Some(x), Some(y)) => *x == *y,
        (None, None) => true,
        _ => false,
    }
}

impl PartialEq for Tag {
    fn eq(&self, o: &Tag) -> (r: bool) {
        let ints_eq = match (self.integer, o.integer) {
            (Some(x), Some(y)) => x == y,
            (None, None) => true,
            _ => false,
        };
        let vecs_eq = match (&self.vector, &o.vector) {
            (Some(x), Some(y)) => vec_u32_eq(&x.0, &y.0),
            (None, None) => true,
            _ => false,
        };
        self.music_id == o.music_id && self.key == o.key && opt_string_eq(&self.text, &o.text)
            && ints_eq && opt_string_eq(&self.date, &o.date) && vecs_eq
    }
}

impl Eq for Tag {}

impl vstd::std_specs::cmp::PartialEqSpecImpl for Tag {
    open spec fn obeys_eq_spec() -> bool {
        true
    }

    open spec fn eq_spec(&self, o: &Tag) -> bool {
        self@ == o@
    }
}

/// One change to a tag, relative to the previous snapshot. `kind` is one of
/// `"add"`, `"update"`, `"remove"`.
#[derive(Debug)]
pub struct Patch {
    pub kind: String,
    pub tag: Tag,
}

/// Mathematical value of a `Patch`.
pub struct SpecPatch {
    pub kind: Seq<char>,
    pub tag: SpecTag,
}

impl View for Patch {
    type V = SpecPatch;

    open spec fn view(&self) -> SpecPatch {
        SpecPatch { kind: self.kind@, tag: self.tag@ }
    }
}

impl Clone for Patch {
    fn clone(&self) -> (r: Self)
        ensures
            r@ == self@,
    {
        Patch { kind: self.kind.clone(), tag: self.tag.clone() }
    }
}

impl PartialEq for Patch {
    fn eq(&self, o: &Patch) -> (r: bool) {
        self.kind == o.kind && self.tag == o.tag
    }
}

impl Eq for Patch {}

impl vstd::std_specs::cmp::PartialEqSpecImpl for Patch {
    open spec fn obeys_eq_spec() -> bool {
        true
    }

    open spec fn eq_spec(&self, o: &Patch) -> bool {
        self@ == o@
    }
}

/// The replication unit: a full snapshot (`tags` set, `patches` unset) or a
/// patch set relative to the previously sent snapshot.
#[derive(Debug)]
pub struct MusidexMetadata {
    pub musics: Vec<MusicID>,
    pub tags: Option<Vec<Tag>>,
    pub users: Vec<User>,
    pub settings: Vec<(String, String)>,
    pub patches: Option<Vec<Patch>>,
}

/// Mathematical value of a `MusidexMetadata`.
pub struct SpecMeta {
    pub musics: Seq<int>,
    pub tags: Option<Seq<SpecTag>>,
    pub users: Seq<SpecUser>,
    pub settings: Seq<(Seq<char>, Seq<char>)>,
    pub patches: Option<Seq<SpecPatch>>,
}

pub open spec fn view_music_seq(v: Seq<MusicID>) -> Seq<int> {
    v.map_values(|m: MusicID| m.0 as int)
}

pub open spec fn view_tag_seq(v: Seq<Tag>) -> Seq<SpecTag> {
    v.map_values(|t: Tag| t@)
}

pub open spec fn view_user_seq(v: Seq<User>) -> Seq<SpecUser> {
    v.map_values(|u: User| u@)
}

pub open spec fn view_setting_seq(v: Seq<(String, String)>) -> Seq<(Seq<char>, Seq<char>)> {
    v.map_values(|p: (String, String)| (p.0@, p.1@))
}

pub open spec fn view_patch_seq(v: Seq<Patch>) -> Seq<SpecPatch> {
    v.map_values(|p: Patch| p@)
}

impl View for MusidexMetadata {
    type V = SpecMeta;

    open spec fn view(&self) -> SpecMeta {
        SpecMeta {
            musics: view_music_seq(self.musics@),
            tags: match &self.tags {
                Some(ts) => Some(view_tag_seq(ts@)),
                None => None,
            },
            users: view_user_seq(self.users@),
            settings: view_setting_seq(self.settings@),
            patches: match &self.patches {
                Some(ps) => Some(view_patch_seq(ps@)),
                None => None,
            },
        }
    }
}

/// Canonical string of a key.
pub open spec fn spec_key_str(k: SpecKey) -> Seq<char> {
    match k {
        SpecKey::LocalMP3 => "local_mp3"@,
        SpecKey::LocalWEBM => "local_webm"@,
        SpecKey::LocalM4A => "local_m4a"@,
        SpecKey::LocalOGG => "local_ogg"@,
        SpecKey::YoutubeDLURL => "youtubedl_url"@,
        SpecKey::YoutubeDLVideoID => "youtube_video_id"@,
        SpecKey::YoutubeDLWorkerTreated => "youtube_worker_treated"@,
        SpecKey::YoutubeDLOriginalTitle => "youtube_original_title"@,
        SpecKey::YoutubeDLPlaylist => "youtube_playlist"@,
        SpecKey::Title => "title"@,
        SpecKey::Artist => "artist"@,
        SpecKey::CompressedThumbnail => "compressed_thumbnail"@,
        SpecKey::Thumbnail => "thumbnail"@,
        SpecKey::Duration => "duration"@,
        SpecKey::Embedding => "embedding"@,
        SpecKey::FullEmbedding => "full_embedding"@,
        SpecKey::UserLibrary(p) => "user_library:"@ + p,
        SpecKey::Other(s) => s,
    }
}

/// The key a string decodes to. Total: splitting happens on the first `:`,
/// and anything unknown becomes `Other`.
pub open spec fn spec_key_of(s: Seq<char>) -> SpecKey {
    if s == "local_mp3"@ {
        SpecKey::LocalMP3
    } else if s == "local_webm"@ {
        SpecKey::LocalWEBM
    } else if s == "local_m4a"@ {
        SpecKey::LocalM4A
    } else if s == "local_ogg"@ {
        SpecKey::LocalOGG
    } else if s == "youtubedl_url"@ {
        SpecKey::YoutubeDLURL
    } else if s == "youtube_video_id"@ {
        SpecKey::YoutubeDLVideoID
    } else if s == "youtube_worker_treated"@ {
        SpecKey::YoutubeDLWorkerTreated
    } else if s == "youtube_original_title"@ {
        SpecKey::YoutubeDLOriginalTitle
    } else if s == "youtube_playlist"@ {
        SpecKey::YoutubeDLPlaylist
    } else if s == "title"@ {
        SpecKey::Title
    } else if s == "artist"@ {
        SpecKey::Artist
    } else if s == "compressed_thumbnail"@ {
        SpecKey::CompressedThumbnail
    } else if s == "thumbnail"@ {
        SpecKey::Thumbnail
    } else if s == "duration"@ {
        SpecKey::Duration
    } else if s == "embedding"@ {
        SpecKey::Embedding
    } else if s == "full_embedding"@ {
        SpecKey::FullEmbedding
    } else if first_index_of(s, ':', 0) >= 0 && s.subrange(0, first_index_of(s, ':', 0))
        == "user_library"@ {
        SpecKey::UserLibrary(s.subrange(first_index_of(s, ':', 0) + 1, s.len() as int))
    } else {
        SpecKey::Other(s)
    }
}

/// Splits at the first `:`, handing back what stands before and after it.
pub fn parse_split(x: &str) -> (r: Option<(&str, &str)>)
    ensures
        match r {
            Some(parts) => {
                let i = first_index_of(x@, ':', 0);
                &&& 0 <= i < x@.len()
                &&& parts.0@ == x@.subrange(0, i)
                &&& parts.1@ == x@.subrange(i + 1, x@.len() as int)
            },
            None => first_index_of(x@, ':', 0) == -1,
        },
{
    let n = x.unicode_len();
    match find_char(x, ':') {
        Some(i) => Some((x.substring_char(0, i), x.substring_char(i + 1, n))),
        None => None,
    }
}

impl TagKey {
    /// The canonical string of this key: the bare name, or `prefix:param`
    /// for the nested variant.
    pub fn encode(&self) -> (r: String)
        ensures
            r@ == spec_key_str(self@),
    {
        match self {
            TagKey::LocalMP3 => String::from_str("local_mp3"),
            TagKey::LocalWEBM => String::from_str("local_webm"),
            TagKey::LocalM4A => String::from_str("local_m4a"),
            TagKey::LocalOGG => String::from_str("local_ogg"),
            TagKey::YoutubeDLURL => String::from_str("youtubedl_url"),
            TagKey::YoutubeDLVideoID => String::from_str("youtube_video_id"),
            TagKey::YoutubeDLWorkerTreated => String::from_str("youtube_worker_treated"),
            TagKey::YoutubeDLOriginalTitle => String::from_str("youtube_original_title"),
            TagKey::YoutubeDLPlaylist => String::from_str("youtube_playlist"),
            TagKey::Title => String::from_str("title"),
            TagKey::Artist => String::from_str("artist"),
            TagKey::CompressedThumbnail => String::from_str("compressed_thumbnail"),
            TagKey::Thumbnail => String::from_str("thumbnail"),
            TagKey::Duration => String::from_str("duration"),
            TagKey::Embedding => String::from_str("embedding"),
            TagKey::FullEmbedding => String::from_str("full_embedding"),
            TagKey::UserLibrary(p) => String::from_str("user_library:").concat(p.as_str()),
            TagKey::Other(s) => s.clone(),
        }
    }

    /// The key a string names; never fails, unknown names become `Other`.
    pub fn decode(s: &str) -> (k: TagKey)
        ensures
            k@ == spec_key_of(s@),
    {
        if str_eq(s, "local_mp3") {
            return TagKey::LocalMP3;
        }
        if str_eq(s, "local_webm") {
            return TagKey::LocalWEBM;
        }
        if str_eq(s, "local_m4a") {
            return TagKey::LocalM4A;
        }
        if str_eq(s, "local_ogg") {
            return TagKey::LocalOGG;
        }
        if str_eq(s, "youtubedl_url") {
            return TagKey::YoutubeDLURL;
        }
        if str_eq(s, "youtube_video_id") {
            return TagKey::YoutubeDLVideoID;
        }
        if str_eq(s, "youtube_worker_treated") {
            return TagKey::YoutubeDLWorkerTreated;
        }
        if str_eq(s, "youtube_original_title") {
            return TagKey::YoutubeDLOriginalTitle;
        }
        if str_eq(s, "youtube_playlist") {
            return TagKey::YoutubeDLPlaylist;
        }
        if str_eq(s, "title") {
            return TagKey::Title;
        }
        if str_eq(s, "artist") {
            return TagKey::Artist;
        }
        if str_eq(s, "compressed_thumbnail") {
            return TagKey::CompressedThumbnail;
        }
        if str_eq(s, "thumbnail") {
            return TagKey::Thumbnail;
        }
        if str_eq(s, "duration") {
            return TagKey::Duration;
        }
        if str_eq(s, "embedding") {
            return TagKey::Embedding;
        }
        if str_eq(s, "full_embedding") {
            return TagKey::FullEmbedding;
        }
        match parse_split(s) {
            Some((prefix, val)) => {
                if str_eq(prefix, "user_library") {
                    TagKey::UserLibrary(String::from_str(val))
                } else {
                    TagKey::Other(String::from_str(s))
                }
            },
            None => TagKey::Other(String::from_str(s)),
        }
    }
}

/// A key is canonical when its string decodes back to it; only `Other`
/// values that shadow a known spelling are not.
pub open spec fn key_canonical(k: SpecKey) -> bool {
    match k {
        SpecKey::Other(s) => spec_key_of(s) == SpecKey::Other(s),
        _ => true,
    }
}

proof fn reveal_key_names()
    ensures
        "local_mp3"@.len() == 9,
        "local_webm"@.len() == 10,
        "local_m4a"@.len() == 9,
        "local_ogg"@.len() == 9,
        "youtubedl_url"@.len() == 13,
        "youtube_video_id"@.len() == 16,
        "youtube_worker_treated"@.len() == 22,
        "youtube_original_title"@.len() == 22,
        "youtube_playlist"@.len() == 16,
        "title"@.len() == 5,
        "artist"@.len() == 6,
        "compressed_thumbnail"@.len() == 20,
        "thumbnail"@.len() == 9,
        "duration"@.len() == 8,
        "embedding"@.len() == 9,
        "full_embedding"@.len() == 14,
        "user_library"@.len() == 12,
        "user_library:"@.len() == 13,
        "user_library:"@ == "user_library"@.push(':'),
        forall|i: int| 0 <= i < 12 ==> "user_library:"@[i] != ':',
        "user_library:"@[12] == ':',
        "local_mp3"@[0] == 'l',
        "local_webm"@[0] == 'l',
        "local_m4a"@[0] == 'l',
        "local_ogg"@[0] == 'l',
        "youtubedl_url"@[0] == 'y',
        "youtube_video_id"@[0] == 'y',
        "youtube_worker_treated"@[0] == 'y',
        "youtube_original_title"@[0] == 'y',
        "youtube_playlist"@[0] == 'y',
        "title"@[0] == 't',
        "artist"@[0] == 'a',
        "compressed_thumbnail"@[0] == 'c',
        "thumbnail"@[0] == 't',
        "duration"@[0] == 'd',
        "embedding"@[0] == 'e',
        "full_embedding"@[0] == 'f',
        "user_library:"@[0] == 'u',
        "youtube_video_id"@[8] == 'v',
        "youtube_worker_treated"@[8] == 'w',
        "youtube_original_title"@[8] == 'o',
        "youtube_playlist"@[8] == 'p',
        "local_mp3"@[6] == 'm',
        "local_m4a"@[6] == 'm',
        "local_ogg"@[6] == 'o',
        "local_mp3"@[7] == 'p',
        "local_m4a"@[7] == '4',
        "title"@[0] != "thumbnail"@[1],
        "thumbnail"@[1] == 'h',
        "embedding"@[0] == 'e',
{
    reveal_strlit("local_mp3");
    reveal_strlit("local_webm");
    reveal_strlit("local_m4a");
    reveal_strlit("local_ogg");
    reveal_strlit("youtubedl_url");
    reveal_strlit("youtube_video_id");
    reveal_strlit("youtube_worker_treated");
    reveal_strlit("youtube_original_title");
    reveal_strlit("youtube_playlist");
    reveal_strlit("title");
    reveal_strlit("artist");
    reveal_strlit("compressed_thumbnail");
    reveal_strlit("thumbnail");
    reveal_strlit("duration");
    reveal_strlit("embedding");
    reveal_strlit("full_embedding");
    reveal_strlit("user_library");
    reveal_strlit("user_library:");
    assert("user_library:"@ =~= "user_library"@.push(':'));
}

/// The sixteen well-known names are pairwise distinct strings.
proof fn lemma_names_distinct()
    ensures
        "local_mp3"@ != "local_webm"@,
        "local_mp3"@ != "local_m4a"@,
        "local_mp3"@ != "local_ogg"@,
        "local_mp3"@ != "youtubedl_url"@,
        "local_mp3"@ != "youtube_video_id"@,
        "local_mp3"@ != "youtube_worker_treated"@,
        "local_mp3"@ != "youtube_original_title"@,
        "local_mp3"@ != "youtube_playlist"@,
        "local_mp3"@ != "title"@,
        "local_mp3"@ != "artist"@,
        "local_mp3"@ != "compressed_thumbnail"@,
        "local_mp3"@ != "thumbnail"@,
        "local_mp3"@ != "duration"@,
        "local_mp3"@ != "embedding"@,
        "local_mp3"@ != "full_embedding"@,
        "local_webm"@ != "local_m4a"@,
        "local_webm"@ != "local_ogg"@,
        "local_webm"@ != "youtubedl_url"@,
        "local_webm"@ != "youtube_video_id"@,
        "local_webm"@ != "youtube_worker_treated"@,
        "local_webm"@ != "youtube_original_title"@,
        "local_webm"@ != "youtube_playlist"@,
        "local_webm"@ != "title"@,
        "local_webm"@ != "artist"@,
        "local_webm"@ != "compressed_thumbnail"@,
        "local_webm"@ != "thumbnail"@,
        "local_webm"@ != "duration"@,
        "local_webm"@ != "embedding"@,
        "local_webm"@ != "full_embedding"@,
        "local_m4a"@ != "local_ogg"@,
        "local_m4a"@ != "youtubedl_url"@,
        "local_m4a"@ != "youtube_video_id"@,
        "local_m4a"@ != "youtube_worker_treated"@,
        "local_m4a"@ != "youtube_original_title"@,
        "local_m4a"@ != "youtube_playlist"@,
        "local_m4a"@ != "title"@,
        "local_m4a"@ != "artist"@,
        "local_m4a"@ != "compressed_thumbnail"@,
        "local_m4a"@ != "thumbnail"@,
        "local_m4a"@ != "duration"@,
        "local_m4a"@ != "embedding"@,
        "local_m4a"@ != "full_embedding"@,
        "local_ogg"@ != "youtubedl_url"@,
        "local_ogg"@ != "youtube_video_id"@,
        "local_ogg"@ != "youtube_worker_treated"@,
        "local_ogg"@ != "youtube_original_title"@,
        "local_ogg"@ != "youtube_playlist"@,
        "local_ogg"@ != "title"@,
        "local_ogg"@ != "artist"@,
        "local_ogg"@ != "compressed_thumbnail"@,
        "local_ogg"@ != "thumbnail"@,
        "local_ogg"@ != "duration"@,
        "local_ogg"@ != "embedding"@,
        "local_ogg"@ != "full_embedding"@,
        "youtubedl_url"@ != "youtube_video_id"@,
        "youtubedl_url"@ != "youtube_worker_treated"@,
        "youtubedl_url"@ != "youtube_original_title"@,
        "youtubedl_url"@ != "youtube_playlist"@,
        "youtubedl_url"@ != "title"@,
        "youtubedl_url"@ != "artist"@,
        "youtubedl_url"@ != "compressed_thumbnail"@,
        "youtubedl_url"@ != "thumbnail"@,
        "youtubedl_url"@ != "duration"@,
        "youtubedl_url"@ != "embedding"@,
        "youtubedl_url"@ != "full_embedding"@,
        "youtube_video_id"@ != "youtube_worker_treated"@,
        "youtube_video_id"@ != "youtube_original_title"@,
        "youtube_video_id"@ != "youtube_playlist"@,
        "youtube_video_id"@ != "title"@,
        "youtube_video_id"@ != "artist"@,
        "youtube_video_id"@ != "compressed_thumbnail"@,
        "youtube_video_id"@ != "thumbnail"@,
        "youtube_video_id"@ != "duration"@,
        "youtube_video_id"@ != "embedding"@,
        "youtube_video_id"@ != "full_embedding"@,
        "youtube_worker_treated"@ != "youtube_original_title"@,
        "youtube_worker_treated"@ != "youtube_playlist"@,
        "youtube_worker_treated"@ != "title"@,
        "youtube_worker_treated"@ != "artist"@,
        "youtube_worker_treated"@ != "compressed_thumbnail"@,
        "youtube_worker_treated"@ != "thumbnail"@,
        "youtube_worker_treated"@ != "duration"@,
        "youtube_worker_treated"@ != "embedding"@,
        "youtube_worker_treated"@ != "full_embedding"@,
        "youtube_original_title"@ != "youtube_playlist"@,
        "youtube_original_title"@ != "title"@,
        "youtube_original_title"@ != "artist"@,
        "youtube_original_title"@ != "compressed_thumbnail"@,
        "youtube_original_title"@ != "thumbnail"@,
        "youtube_original_title"@ != "duration"@,
        "youtube_original_title"@ != "embedding"@,
        "youtube_original_title"@ != "full_embedding"@,
        "youtube_playlist"@ != "title"@,
        "youtube_playlist"@ != "artist"@,
        "youtube_playlist"@ != "compressed_thumbnail"@,
        "youtube_playlist"@ != "thumbnail"@,
        "youtube_playlist"@ != "duration"@,
        "youtube_playlist"@ != "embedding"@,
        "youtube_playlist"@ != "full_embedding"@,
        "title"@ != "artist"@,
        "title"@ != "compressed_thumbnail"@,
        "title"@ != "thumbnail"@,
        "title"@ != "duration"@,
        "title"@ != "embedding"@,
        "title"@ != "full_embedding"@,
        "artist"@ != "compressed_thumbnail"@,
        "artist"@ != "thumbnail"@,
        "artist"@ != "duration"@,
        "artist"@ != "embedding"@,
        "artist"@ != "full_embedding"@,
        "compressed_thumbnail"@ != "thumbnail"@,
        "compressed_thumbnail"@ != "duration"@,
        "compressed_thumbnail"@ != "embedding"@,
        "compressed_thumbnail"@ != "full_embedding"@,
        "thumbnail"@ != "duration"@,
        "thumbnail"@ != "embedding"@,
        "thumbnail"@ != "full_embedding"@,
        "duration"@ != "embedding"@,
        "duration"@ != "full_embedding"@,
        "embedding"@ != "full_embedding"@,
{
    reveal_strlit("local_mp3");
    reveal_strlit("local_webm");
    reveal_strlit("local_m4a");
    reveal_strlit("local_ogg");
    reveal_strlit("youtubedl_url");
    reveal_strlit("youtube_video_id");
    reveal_strlit("youtube_worker_treated");
    reveal_strlit("youtube_original_title");
    reveal_strlit("youtube_playlist");
    reveal_strlit("title");
    reveal_strlit("artist");
    reveal_strlit("compressed_thumbnail");
    reveal_strlit("thumbnail");
    reveal_strlit("duration");
    reveal_strlit("embedding");
    reveal_strlit("full_embedding");
    assert("local_mp3"@.len() == 9);
    assert("local_webm"@.len() == 10);
    assert("local_m4a"@.len() == 9);
    assert("local_ogg"@.len() == 9);
    assert("youtubedl_url"@.len() == 13);
    assert("youtube_video_id"@.len() == 16);
    assert("youtube_worker_treated"@.len() == 22);
    assert("youtube_original_title"@.len() == 22);
    assert("youtube_playlist"@.len() == 16);
    assert("title"@.len() == 5);
    assert("artist"@.len() == 6);
    assert("compressed_thumbnail"@.len() == 20);
    assert("thumbnail"@.len() == 9);
    assert("duration"@.len() == 8);
    assert("embedding"@.len() == 9);
    assert("full_embedding"@.len() == 14);
    assert("local_mp3"@[7] == 'p');
    assert("local_m4a"@[7] == '4');
    assert("local_mp3"@[6] == 'm');
    assert("local_ogg"@[6] == 'o');
    assert("local_mp3"@[0] == 'l');
    assert("thumbnail"@[0] == 't');
    assert("local_mp3"@[0] == 'l');
    assert("embedding"@[0] == 'e');
    assert("local_m4a"@[6] == 'm');
    assert("local_ogg"@[6] == 'o');
    assert("local_m4a"@[0] == 'l');
    assert("thumbnail"@[0] == 't');
    assert("local_m4a"@[0] == 'l');
    assert("embedding"@[0] == 'e');
    assert("local_ogg"@[0] == 'l');
    assert("thumbnail"@[0] == 't');
    assert("local_ogg"@[0] == 'l');
    assert("embedding"@[0] == 'e');
    assert("youtube_video_id"@[8] == 'v');
    assert("youtube_playlist"@[8] == 'p');
    assert("youtube_worker_treated"@[8] == 'w');
    assert("youtube_original_title"@[8] == 'o');
    assert("thumbnail"@[0] == 't');
    assert("embedding"@[0] == 'e');
}

/// Law: decoding the canonical string of a key gives the key back. This
/// holds for every key whose value is canonical, which is every variant but
/// an `Other` that spells out a known name.
pub proof fn lemma_key_roundtrip(k: SpecKey)
    requires
        key_canonical(k),
    ensures
        spec_key_of(spec_key_str(k)) == k,
{
    reveal_strlit("local_mp3");
    reveal_strlit("local_webm");
    reveal_strlit("local_m4a");
    reveal_strlit("local_ogg");
    reveal_strlit("youtubedl_url");
    reveal_strlit("youtube_video_id");
    reveal_strlit("youtube_worker_treated");
    reveal_strlit("youtube_original_title");
    reveal_strlit("youtube_playlist");
    reveal_strlit("title");
    reveal_strlit("artist");
    reveal_strlit("compressed_thumbnail");
    reveal_strlit("thumbnail");
    reveal_strlit("duration");
    reveal_strlit("embedding");
    reveal_strlit("full_embedding");
    reveal_strlit("user_library");
    reveal_strlit("user_library:");
    lemma_names_distinct();
    match k {
        SpecKey::UserLibrary(p) => {
            let s = spec_key_str(k);
            assert(s == "user_library:"@ + p);
            assert(s.len() >= 13);
            assert(s[0] == 'u');
            assert(s != "local_mp3"@);
            assert(s != "local_webm"@);
            assert(s != "local_m4a"@);
            assert(s != "local_ogg"@);
            assert(s != "youtubedl_url"@);
            assert(s != "youtube_video_id"@);
            assert(s != "youtube_worker_treated"@);
            assert(s != "youtube_original_title"@);
            assert(s != "youtube_playlist"@);
            assert(s != "title"@);
            assert(s != "artist"@);
            assert(s != "compressed_thumbnail"@);
            assert(s != "thumbnail"@);
            assert(s != "duration"@);
            assert(s != "embedding"@);
            assert(s != "full_embedding"@);
            crate::strutil::lemma_first_index_at(s, ':', 0, 12);
            assert(first_index_of(s, ':', 0) == 12);
            assert(s.subrange(0, 12) =~= "user_library"@);
            assert(s.subrange(13, s.len() as int) =~= p);
        },
        _ => {
        },
    }
}

/// Law: encoding the key a string decodes to gives the string back, for
/// every string whatsoever.
pub proof fn lemma_key_str_roundtrip(s: Seq<char>)
    ensures
        spec_key_str(spec_key_of(s)) == s,
{
    reveal_strlit("user_library");
    reveal_strlit("user_library:");
    let i = first_index_of(s, ':', 0);
    crate::strutil::lemma_first_index_bounds(s, ':', 0);
    if i >= 0 && s.subrange(0, i) == "user_library"@ {
        assert("user_library"@.len() == 12);
        assert(s.subrange(0, i).len() == i);
        assert(i == 12);
        assert(s[12] == ':');
        assert("user_library:"@ =~= "user_library"@.push(':'));
        let rest = s.subrange(i + 1, s.len() as int);
        assert forall|j: int| 0 <= j < s.len() implies ("user_library:"@ + rest)[j] == s[j] by {
            if j < 12 {
                assert(s.subrange(0, 12)[j] == s[j]);
            }
        }
        assert("user_library:"@ + rest =~= s);
    }
}

/// Rebuilds a vector payload from raw little-endian bytes: four bytes per
/// 32-bit lane, rejecting a length that is not a multiple of four.
pub fn reconstruct(x: Vec<u8>) -> (r: Option<Vector>)
    ensures
        match r {
            Some(v) => {
                &&& x@.len() % 4 == 0
                &&& v@.len() == x@.len() / 4
                &&& forall|i: int|
                    0 <= i < v@.len() ==> v@[i] == spec_le32(
                        x@[4 * i],
                        x@[4 * i + 1],
                        x@[4 * i + 2],
                        x@[4 * i + 3],
                    )
            },
            None => x@.len() % 4 != 0,
        },
{
    if x.len() % 4 != 0 {
        return None;
    }
    let mut res: Vec<u32> = Vec::new();
    let mut i: usize = 0;
    while i < x.len()
        invariant
            x@.len() % 4 == 0,
            i % 4 == 0,
            0 <= i <= x@.len(),
            res@.len() == i / 4,
            forall|j: int|
                0 <= j < res@.len() ==> res@[j] == spec_le32(
                    x@[4 * j],
                    x@[4 * j + 1],
                    x@[4 * j + 2],
                    x@[4 * j + 3],
                ),
        decreases x@.len() - i,
    {
        proof {
            assert(x@.len() - i >= 4);
        }
        let w: u32 = (x[i] as u32) + (x[i + 1] as u32) * 0x100 + (x[i + 2] as u32) * 0x1_0000 + (x[i
            + 3] as u32) * 0x100_0000;
        res.push(w);
        i = i + 4;
    }
    Some(Vector(res))
}

/// A 32-bit word from four little-endian bytes.
pub open spec fn spec_le32(b0: u8, b1: u8, b2: u8, b3: u8) -> u32 {
    (b0 + b1 * 0x100 + b2 * 0x1_0000 + b3 * 0x100_0000) as u32
}

} // verus!

verus! {

impl UserID {
    /// The decimal string of this id, as ownership keys carry it.
    pub fn to_string(&self) -> (r: String)
        ensures
            r@ == crate::strutil::spec_int_str(self.0 as int),
    {
        crate::strutil::i32_to_string(self.0)
    }
}

} // verus!
