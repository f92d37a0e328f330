//! Title cleanup for ingested uploads: strips bracketed "official video"
//! style markers and splits an `artist - track` title, matching what the
//! uploader's cleanup does.
//!
//! The marker grammar is: an opening `(` or `[`, one or more marker words
//! each followed by up to one blank, one dash and one more blank, then a
//! closing `)` or `]`. The words are matched ignoring case. On this
//! alphabet the grammar is deterministic: a blank or dash after a word can
//! only be eaten by that word's trailer, and a closing bracket can only
//! stand where the run of words ends, so a single greedy scan decides it.

use vstd::prelude::*;

use crate::strutil::{is_ws, spec_is_ws};

verus! {

use vstd::string::StrSliceExecFns;
use vstd::string::StringExecFns;

/// The code point a character matches under the marker words' case
/// folding: ASCII upper case folds down, as does the accented capital in
/// the accented word.
pub open spec fn fold_cp(c: char) -> int {
    if 'A' <= c && c <= 'Z' {
        c as int + 32
    } else if c == '\u{c9}' {
        0xe9
    } else {
        c as int
    }
}

fn fc(s: &str, i: usize) -> (r: u32)
    requires
        i < s@.len(),
    ensures
        r == fold_cp(s@[i as int]),
{
    let c = s.get_char(i);
    let u = c as u32;
    if ('A' as u32) <= u && u <= ('Z' as u32) {
        u + 32
    } else if u == 0xc9 {
        0xe9
    } else {
        u
    }
}

pub open spec fn is_open(c: char) -> bool {
    c == '(' || c == '['
}

pub open spec fn is_close(c: char) -> bool {
    c == ')' || c == ']'
}

/// Does the marker word spelled `official` stand at `i`, ignoring case?
pub open spec fn m_official(s: Seq<char>, i: int) -> bool {
    &&& i >= 0
    &&& i + 8 <= s.len()
    &&& fold_cp(s[i + 0]) == 0x6f
    &&& fold_cp(s[i + 1]) == 0x66
    &&& fold_cp(s[i + 2]) == 0x66
    &&& fold_cp(s[i + 3]) == 0x69
    &&& fold_cp(s[i + 4]) == 0x63
    &&& fold_cp(s[i + 5]) == 0x69
    &&& fold_cp(s[i + 6]) == 0x61
    &&& fold_cp(s[i + 7]) == 0x6c
}

/// Does the marker word spelled `video` stand at `i`, ignoring case?
pub open spec fn m_video(s: Seq<char>, i: int) -> bool {
    &&& i >= 0
    &&& i + 5 <= s.len()
    &&& fold_cp(s[i + 0]) == 0x76
    &&& fold_cp(s[i + 1]) == 0x69
    &&& fold_cp(s[i + 2]) == 0x64
    &&& fold_cp(s[i + 3]) == 0x65
    &&& fold_cp(s[i + 4]) == 0x6f
}

/// Does the marker word spelled `hq` stand at `i`, ignoring case?
pub open spec fn m_hq(s: Seq<char>, i: int) -> bool {
    &&& i >= 0
    &&& i + 2 <= s.len()
    &&& fold_cp(s[i + 0]) == 0x68
    &&& fold_cp(s[i + 1]) == 0x71
}

/// Does the marker word spelled `video_acc` stand at `i`, ignoring case?
pub open spec fn m_video_acc(s: Seq<char>, i: int) -> bool {
    &&& i >= 0
    &&& i + 5 <= s.len()
    &&& fold_cp(s[i + 0]) == 0x76
    &&& fold_cp(s[i + 1]) == 0x69
    &&& fold_cp(s[i + 2]) == 0x64
    &&& fold_cp(s[i + 3]) == 0xe9
    &&& fold_cp(s[i + 4]) == 0x6f
}

/// Does the marker word spelled `officielle` stand at `i`, ignoring case?
pub open spec fn m_officielle(s: Seq<char>, i: int) -> bool {
    &&& i >= 0
    &&& i + 10 <= s.len()
    &&& fold_cp(s[i + 0]) == 0x6f
    &&& fold_cp(s[i + 1]) == 0x66
    &&& fold_cp(s[i + 2]) == 0x66
    &&& fold_cp(s[i + 3]) == 0x69
    &&& fold_cp(s[i + 4]) == 0x63
    &&& fold_cp(s[i + 5]) == 0x69
    &&& fold_cp(s[i + 6]) == 0x65
    &&& fold_cp(s[i + 7]) == 0x6c
    &&& fold_cp(s[i + 8]) == 0x6c
    &&& fold_cp(s[i + 9]) == 0x65
}

/// Length of the marker word standing at `i`, or 0. At most one word
/// can match at a position.
pub open spec fn spec_word_len_at(s: Seq<char>, i: int) -> int {
    if m_official(s, i) {
        8
    } else if m_video(s, i) {
        5
    } else if m_hq(s, i) {
        2
    } else if m_video_acc(s, i) {
        5
    } else if m_officielle(s, i) {
        10
    } else {
        0
    }
}

fn word_len_at(s: &str, n: usize, i: usize) -> (r: usize)
    requires
        n == s@.len(),
        i <= n,
    ensures
        r == spec_word_len_at(s@, i as int),
        r == 0 || i + r <= n,
{
    if n - i >= 8 && fc(s, i + 0) == 0x6f && fc(s, i + 1) == 0x66 && fc(s, i + 2) == 0x66 && fc(s, i + 3) == 0x69 && fc(s, i + 4) == 0x63 && fc(s, i + 5) == 0x69 && fc(s, i + 6) == 0x61 && fc(s, i + 7) == 0x6c {
        8
    } else if n - i >= 5 && fc(s, i + 0) == 0x76 && fc(s, i + 1) == 0x69 && fc(s, i + 2) == 0x64 && fc(s, i + 3) == 0x65 && fc(s, i + 4) == 0x6f {
        5
    } else if n - i >= 2 && fc(s, i + 0) == 0x68 && fc(s, i + 1) == 0x71 {
        2
    } else if n - i >= 5 && fc(s, i + 0) == 0x76 && fc(s, i + 1) == 0x69 && fc(s, i + 2) == 0x64 && fc(s, i + 3) == 0xe9 && fc(s, i + 4) == 0x6f {
        5
    } else if n - i >= 10 && fc(s, i + 0) == 0x6f && fc(s, i + 1) == 0x66 && fc(s, i + 2) == 0x66 && fc(s, i + 3) == 0x69 && fc(s, i + 4) == 0x63 && fc(s, i + 5) == 0x69 && fc(s, i + 6) == 0x65 && fc(s, i + 7) == 0x6c && fc(s, i + 8) == 0x6c && fc(s, i + 9) == 0x65 {
        10
    } else {
        0
    }
}

} // verus!

verus! {

/// Where the optional blank, dash, blank after a marker word end.
pub open spec fn trailer_end(s: Seq<char>, j: int) -> int {
    let j1 = if 0 <= j < s.len() && spec_is_ws(s[j]) {
        j + 1
    } else {
        j
    };
    let j2 = if 0 <= j1 < s.len() && s[j1] == '-' {
        j1 + 1
    } else {
        j1
    };
    if 0 <= j2 < s.len() && spec_is_ws(s[j2]) {
        j2 + 1
    } else {
        j2
    }
}

/// Where the run of marker words starting at `i` ends.
pub open spec fn units_end(s: Seq<char>, i: int) -> int
    decreases s.len() - i,
{
    if !(0 <= i <= s.len()) {
        i
    } else {
        let w = spec_word_len_at(s, i);
        if w == 0 {
            i
        } else {
            let e = trailer_end(s, i + w);
            if i < e <= s.len() {
                units_end(s, e)
            } else {
                e
            }
        }
    }
}

pub proof fn lemma_units_end_bounds(s: Seq<char>, i: int)
    requires
        0 <= i <= s.len(),
    ensures
        i <= units_end(s, i) <= s.len(),
    decreases s.len() - i,
{
    let w = spec_word_len_at(s, i);
    if w != 0 {
        let e = trailer_end(s, i + w);
        if i < e <= s.len() {
            lemma_units_end_bounds(s, e);
        }
    }
}

/// One past the end of a whole marker standing at `i`, or -1: an opening
/// bracket, at least one word, the run, a closing bracket.
pub open spec fn marker_end_at(s: Seq<char>, i: int) -> int {
    if 0 <= i < s.len() && is_open(s[i]) && spec_word_len_at(s, i + 1) > 0 {
        let e = units_end(s, i + 1);
        if 0 <= e < s.len() && is_close(s[e]) {
            e + 1
        } else {
            -1
        }
    } else {
        -1
    }
}

/// The first position at or after `i` where a whole marker stands, or -1.
pub open spec fn first_marker(s: Seq<char>, i: int) -> int
    decreases s.len() - i,
{
    if !(0 <= i < s.len()) {
        -1
    } else if marker_end_at(s, i) >= 0 {
        i
    } else {
        first_marker(s, i + 1)
    }
}

/// Does the string contain a whole marker anywhere?
pub open spec fn spec_has_marker(s: Seq<char>) -> bool {
    first_marker(s, 0) >= 0
}

/// The string with every marker removed, scanning left to right and
/// resuming right after each removed marker.
pub open spec fn spec_strip(s: Seq<char>) -> Seq<char>
    decreases s.len(),
{
    let i = first_marker(s, 0);
    if i < 0 {
        s
    } else {
        let e = marker_end_at(s, i);
        if 1 <= e <= s.len() {
            s.subrange(0, i) + spec_strip(s.subrange(e, s.len() as int))
        } else {
            s
        }
    }
}

/// The first non-blank position at or after `i`.
pub open spec fn ws_start(s: Seq<char>, i: int) -> int
    decreases s.len() - i,
{
    if !(0 <= i < s.len()) {
        s.len() as int
    } else if spec_is_ws(s[i]) {
        ws_start(s, i + 1)
    } else {
        i
    }
}

/// One past the last non-blank position before `j`.
pub open spec fn ws_end(s: Seq<char>, j: int) -> int
    decreases j,
{
    if j <= 0 || j > s.len() {
        0
    } else if spec_is_ws(s[j - 1]) {
        ws_end(s, j - 1)
    } else {
        j
    }
}

/// The string with leading and trailing blanks removed.
pub open spec fn spec_trim(s: Seq<char>) -> Seq<char> {
    let a = ws_start(s, 0);
    let b = ws_end(s, s.len() as int);
    if a < b {
        s.subrange(a, b)
    } else {
        Seq::empty()
    }
}

/// The first ` - ` separator at or after `i`, or -1.
pub open spec fn first_sep(s: Seq<char>, i: int) -> int
    decreases s.len() - i,
{
    if !(0 <= i) || i + 3 > s.len() {
        -1
    } else if s[i] == ' ' && s[i + 1] == '-' && s[i + 2] == ' ' {
        i
    } else {
        first_sep(s, i + 1)
    }
}

/// What guessing makes of a title: markers stripped and trimmed, then
/// split as `artist - track` on the first separator, unless either side
/// would be empty.
pub open spec fn spec_guess(s: Seq<char>) -> (Seq<char>, Option<Seq<char>>) {
    let t = spec_trim(spec_strip(s));
    let p = first_sep(t, 0);
    if p < 0 {
        (t, None)
    } else {
        let artist = spec_trim(t.subrange(0, p));
        let track = spec_trim(t.subrange(p + 3, t.len() as int));
        if artist.len() == 0 || track.len() == 0 {
            (t, None)
        } else {
            (track, Some(artist))
        }
    }
}

fn trailer_end_x(s: &str, n: usize, j: usize) -> (r: usize)
    requires
        n == s@.len(),
        j <= n,
    ensures
        r == trailer_end(s@, j as int),
        j <= r <= n,
{
    let mut j1 = j;
    if j < n && is_ws(s.get_char(j)) {
        j1 = j + 1;
    }
    let mut j2 = j1;
    if j1 < n && s.get_char(j1) == '-' {
        j2 = j1 + 1;
    }
    if j2 < n && is_ws(s.get_char(j2)) {
        j2 + 1
    } else {
        j2
    }
}

fn units_end_x(s: &str, n: usize, i: usize) -> (r: usize)
    requires
        n == s@.len(),
        i <= n,
    ensures
        r == units_end(s@, i as int),
        i <= r <= n,
    decreases n - i,
{
    let w = word_len_at(s, n, i);
    if w == 0 {
        return i;
    }
    let e = trailer_end_x(s, n, i + w);
    if i < e {
        units_end_x(s, n, e)
    } else {
        e
    }
}

fn marker_end_x(s: &str, n: usize, i: usize) -> (r: Option<usize>)
    requires
        n == s@.len(),
        i < n,
    ensures
        match r {
            Some(e) => marker_end_at(s@, i as int) == e && i < e <= n,
            None => marker_end_at(s@, i as int) == -1,
        },
{
    let c = s.get_char(i);
    if !(c == '(' || c == '[') {
        return None;
    }
    if word_len_at(s, n, i + 1) == 0 {
        return None;
    }
    let e = units_end_x(s, n, i + 1);
    if e < n {
        let cc = s.get_char(e);
        if cc == ')' || cc == ']' {
            return Some(e + 1);
        }
    }
    None
}

fn first_marker_x(s: &str, n: usize) -> (r: Option<usize>)
    requires
        n == s@.len(),
    ensures
        match r {
            Some(i) => first_marker(s@, 0) == i && i < n && marker_end_at(s@, i as int) >= 0,
            None => first_marker(s@, 0) == -1,
        },
{
    let mut i: usize = 0;
    while i < n
        invariant
            0 <= i <= n,
            n == s@.len(),
            forall|j: int| 0 <= j < i ==> marker_end_at(s@, j) == -1,
            first_marker(s@, 0) == first_marker(s@, i as int),
        decreases n - i,
    {
        match marker_end_x(s, n, i) {
            Some(_) => {
                return Some(i);
            },
            None => {
            },
        }
        i = i + 1;
    }
    None
}

/// Does the title contain a whole marker, as the cleanup would match it?
pub fn has_official_marker(s: &str) -> (r: bool)
    ensures
        r == spec_has_marker(s@),
{
    let n = s.unicode_len();
    match first_marker_x(s, n) {
        Some(_) => true,
        None => false,
    }
}

/// The title with every marker removed.
pub fn strip_markers(s: &str) -> (r: String)
    ensures
        r@ == spec_strip(s@),
    decreases s@.len(),
{
    let n = s.unicode_len();
    match first_marker_x(s, n) {
        None => String::from_str(s),
        Some(i) => {
            let e = match marker_end_x(s, n, i) {
                Some(e) => e,
                None => {
                    proof {
                        assert(false);
                    }
                    return String::from_str(s);
                },
            };
            let prefix = s.substring_char(0, i);
            let rest = s.substring_char(e, n);
            let stripped_rest = strip_markers(rest);
            String::from_str(prefix).concat(stripped_rest.as_str())
        },
    }
}

/// The title with leading and trailing blanks removed.
pub fn trim_blanks(s: &str) -> (r: String)
    ensures
        r@ == spec_trim(s@),
{
    let n = s.unicode_len();
    let mut a: usize = 0;
    while a < n && is_ws(s.get_char(a))
        invariant
            0 <= a <= n,
            n == s@.len(),
            ws_start(s@, 0) == ws_start(s@, a as int),
            forall|j: int| 0 <= j < a ==> spec_is_ws(s@[j]),
        decreases n - a,
    {
        a = a + 1;
    }
    let mut b: usize = n;
    while b > a && is_ws(s.get_char(b - 1))
        invariant
            a <= b <= n,
            n == s@.len(),
            a == ws_start(s@, 0),
            forall|j: int| 0 <= j < a ==> spec_is_ws(s@[j]),
            ws_end(s@, n as int) == ws_end(s@, b as int),
        decreases b,
    {
        b = b - 1;
    }
    proof {
        if b > a {
            assert(ws_end(s@, b as int) == b);
        } else {
            assert(b == a);
            lemma_ws_end_below_start(s@, b as int);
        }
    }
    if a < b {
        String::from_str(s.substring_char(a, b))
    } else {
        String::new()
    }
}

/// Below the first non-blank position everything is blank, so the
/// trailing scan bottoms out at or before it.
proof fn lemma_ws_end_below_start(s: Seq<char>, b: int)
    requires
        0 <= b <= s.len(),
        forall|j: int| 0 <= j < b ==> spec_is_ws(s[j]),
    ensures
        ws_end(s, b) == 0,
    decreases b,
{
    if b > 0 {
        lemma_ws_end_below_start(s, b - 1);
    }
}

fn first_sep_x(s: &str, n: usize) -> (r: Option<usize>)
    requires
        n == s@.len(),
    ensures
        match r {
            Some(i) => first_sep(s@, 0) == i && i + 3 <= n,
            None => first_sep(s@, 0) == -1,
        },
{
    if n < 3 {
        proof {
            lemma_first_sep_none(s@, 0);
        }
        return None;
    }
    let mut i: usize = 0;
    while i <= n - 3
        invariant
            0 <= i,
            n >= 3,
            i <= n - 2,
            n == s@.len(),
            first_sep(s@, 0) == first_sep(s@, i as int),
        decreases n - i,
    {
        if s.get_char(i) == ' ' && s.get_char(i + 1) == '-' && s.get_char(i + 2) == ' ' {
            return Some(i);
        }
        i = i + 1;
    }
    proof {
        lemma_first_sep_none(s@, i as int);
    }
    None
}

proof fn lemma_first_sep_none(s: Seq<char>, i: int)
    requires
        0 <= i,
        i + 3 > s.len(),
    ensures
        first_sep(s, i) == -1,
{
}

/// Guesses track and artist from a raw title: strips the markers, trims,
/// and splits on the first ` - ` unless either side comes out empty.
pub fn guess_title(title: &str) -> (r: (String, Option<String>))
    ensures
        r.0@ == spec_guess(title@).0,
        crate::entity::view_opt_str(r.1) == spec_guess(title@).1,
{
    let stripped = strip_markers(title);
    let t = trim_blanks(stripped.as_str());
    let n = t.as_str().unicode_len();
    match first_sep_x(t.as_str(), n) {
        None => (t, None),
        Some(p) => {
            let artist = trim_blanks(t.as_str().substring_char(0, p));
            let track = trim_blanks(t.as_str().substring_char(p + 3, n));
            if artist.as_str().unicode_len() == 0 || track.as_str().unicode_len() == 0 {
                (t, None)
            } else {
                (track, Some(artist))
            }
        },
    }
}

} // verus!
