//! The coordinate parser: recognises the `group:artifact:jar:version:` shape
//! inside one line of a Maven `dependency:tree` report and resolves it to the
//! path of the jar inside the local repository cache.
//!
//! A line is searched for its first maximal run of non-whitespace characters
//! that contains a `:jar:` marker preceded by at least one character and
//! followed, at least two characters later, by another colon. The matched
//! segment runs from the start of that run to the last colon of the run. It
//! must split on `:` into exactly five fields: group, artifact, packaging,
//! version and scope (the scope field is always empty, since the segment ends
//! at a colon). The resolved path is
//! `repo/group-with-dots-as-slashes/artifact/version/artifact-version.jar`.

use crate::copier::file_name_spec;
use crate::copier::last_index_of;
use crate::copier::lemma_last_index_of;
use vstd::prelude::*;

verus! {

/// The characters that end a non-whitespace run: the Unicode white-space
/// set.
pub open spec fn is_ws(c: char) -> bool {
    c == '\u{0009}' || c == '\u{000a}' || c == '\u{000b}' || c == '\u{000c}' || c == '\u{000d}'
        || c == '\u{0020}' || c == '\u{0085}' || c == '\u{00a0}' || c == '\u{1680}' || c
        == '\u{2000}' || c == '\u{2001}' || c == '\u{2002}' || c == '\u{2003}' || c == '\u{2004}'
        || c == '\u{2005}' || c == '\u{2006}' || c == '\u{2007}' || c == '\u{2008}' || c
        == '\u{2009}' || c == '\u{200a}' || c == '\u{2028}' || c == '\u{2029}' || c == '\u{202f}'
        || c == '\u{205f}' || c == '\u{3000}'
}

/// The substring `jar` starts at position `i` of `s`.
pub open spec fn has_jar_at(s: Seq<char>, i: int) -> bool {
    0 <= i && i + 3 <= s.len() && s[i] == 'j' && s[i + 1] == 'a' && s[i + 2] == 'r'
}

/// `s` contains the substring `jar` somewhere.
pub open spec fn contains_jar(s: Seq<char>) -> bool {
    exists|i: int| has_jar_at(s, i)
}

/// The marker `:jar:` starts at position `j` of `s`.
pub open spec fn jar_marker_at(s: Seq<char>, j: int) -> bool {
    0 <= j && j + 5 <= s.len() && s[j] == ':' && s[j + 1] == 'j' && s[j + 2] == 'a' && s[j + 3]
        == 'r' && s[j + 4] == ':'
}

/// `[lo, hi)` is a maximal run of non-whitespace characters of `s`.
pub open spec fn nonws_run(s: Seq<char>, lo: int, hi: int) -> bool {
    &&& 0 <= lo < hi <= s.len()
    &&& forall|i: int| lo <= i < hi ==> !is_ws(#[trigger] s[i])
    &&& (lo == 0 || is_ws(s[lo - 1]))
    &&& (hi == s.len() || is_ws(s[hi]))
}

/// The run `[lo, hi)` admits a coordinate match: it holds a `:jar:` marker
/// with at least one character before it and, at least one character after
/// the marker, a further colon.
pub open spec fn run_matches(s: Seq<char>, lo: int, hi: int) -> bool {
    exists|j: int, k: int|
        {
            &&& lo + 1 <= j
            &&& j + 5 <= hi
            &&& jar_marker_at(s, j)
            &&& j + 6 <= k < hi
            &&& s[k] == ':'
        }
}

/// Some maximal non-whitespace run of `s` admits a coordinate match.
pub open spec fn has_coordinate_match(s: Seq<char>) -> bool {
    exists|lo: int, hi: int| nonws_run(s, lo, hi) && run_matches(s, lo, hi)
}

/// `[lo, hi)` is the leftmost maximal non-whitespace run of `s` that admits
/// a coordinate match.
pub open spec fn is_first_matching_run(s: Seq<char>, lo: int, hi: int) -> bool {
    &&& nonws_run(s, lo, hi)
    &&& run_matches(s, lo, hi)
    &&& forall|lo2: int, hi2: int|
        nonws_run(s, lo2, hi2) && #[trigger] run_matches(s, lo2, hi2) ==> lo <= lo2
}

/// `k` is the last colon of the run `[lo, hi)` of `s`.
pub open spec fn is_last_colon(s: Seq<char>, lo: int, hi: int, k: int) -> bool {
    &&& lo <= k < hi
    &&& s[k] == ':'
    &&& forall|k2: int| k < k2 < hi ==> s[k2] != ':'
}

/// The matched segment of `s`: from the start of the first matching run to
/// its last colon, inclusive. Meaningful only when `has_coordinate_match(s)`.
pub open spec fn matched_segment(s: Seq<char>) -> Seq<char> {
    let (lo, hi) = choose|lo: int, hi: int| is_first_matching_run(s, lo, hi);
    let k = choose|k: int| is_last_colon(s, lo, hi, k);
    s.subrange(lo, k + 1)
}

/// Whitespace test on one character.
fn is_ws_char(c: char) -> (b: bool)
    ensures
        b == is_ws(c),
{
    c == '\u{0009}' || c == '\u{000a}' || c == '\u{000b}' || c == '\u{000c}' || c == '\u{000d}'
        || c == '\u{0020}' || c == '\u{0085}' || c == '\u{00a0}' || c == '\u{1680}' || c
        == '\u{2000}' || c == '\u{2001}' || c == '\u{2002}' || c == '\u{2003}' || c == '\u{2004}'
        || c == '\u{2005}' || c == '\u{2006}' || c == '\u{2007}' || c == '\u{2008}' || c
        == '\u{2009}' || c == '\u{200a}' || c == '\u{2028}' || c == '\u{2029}' || c == '\u{202f}'
        || c == '\u{205f}' || c == '\u{3000}'
}

/// Whether `line` contains the substring `jar`.
fn contains_jar_str(line: &str) -> (b: bool)
    ensures
        b == contains_jar(line@),
{
    let n = line.unicode_len();
    if n < 3 {
        assert(forall|i: int| !has_jar_at(line@, i));
        return false;
    }
    let mut i: usize = 0;
    while i <= n - 3
        invariant
            3 <= n == line@.len(),
            0 <= i <= n - 2,
            forall|p: int| 0 <= p < i ==> !has_jar_at(line@, p),
        decreases n - i,
    {
        if line.get_char(i) == 'j' && line.get_char(i + 1) == 'a' && line.get_char(i + 2) == 'r' {
            assert(has_jar_at(line@, i as int));
            return true;
        }
        i = i + 1;
    }
    assert(forall|p: int| i <= p ==> !has_jar_at(line@, p));
    false
}

/// Whitespace test on the character at `idx`.
fn ws_at(line: &str, idx: usize) -> (b: bool)
    requires
        idx < line@.len(),
    ensures
        b == is_ws(line@[idx as int]),
{
    is_ws_char(line.get_char(idx))
}

/// Extends the non-whitespace run that starts at `lo` to its end.
fn run_end(line: &str, lo: usize) -> (hi: usize)
    requires
        lo < line@.len(),
        !is_ws(line@[lo as int]),
    ensures
        lo < hi <= line@.len(),
        forall|p: int| lo <= p < hi ==> !is_ws(#[trigger] line@[p]),
        hi == line@.len() || is_ws(line@[hi as int]),
{
    let n = line.unicode_len();
    let mut hi: usize = lo + 1;
    while hi < n && !ws_at(line, hi)
        invariant
            lo < hi <= n == line@.len(),
            forall|p: int| lo <= p < hi ==> !is_ws(#[trigger] line@[p]),
        decreases n - hi,
    {
        hi = hi + 1;
    }
    hi
}

/// Finds the first `:jar:` marker of the run `[lo, hi)` that has at least one
/// character of the run before it.
fn first_marker(line: &str, lo: usize, hi: usize) -> (r: Option<usize>)
    requires
        lo < hi <= line@.len(),
    ensures
        match r {
            Some(j) => lo < j && j + 5 <= hi && jar_marker_at(line@, j as int) && forall|q: int|
                lo < q < j ==> !jar_marker_at(line@, q),
            None => forall|q: int| lo < q && q + 5 <= hi ==> !jar_marker_at(line@, q),
        },
{
    let mut j: usize = lo + 1;
    while j < hi && hi - j >= 5
        invariant
            lo < j <= hi <= line@.len(),
            forall|q: int| lo < q < j ==> !jar_marker_at(line@, q),
        decreases hi - j,
    {
        if line.get_char(j) == ':' && line.get_char(j + 1) == 'j' && line.get_char(j + 2) == 'a'
            && line.get_char(j + 3) == 'r' && line.get_char(j + 4) == ':' {
            return Some(j);
        }
        j = j + 1;
    }
    None
}

/// Finds the last colon of the range `[lo, hi)`.
fn last_colon_in(line: &str, lo: usize, hi: usize) -> (r: Option<usize>)
    requires
        lo < hi <= line@.len(),
    ensures
        match r {
            Some(k) => is_last_colon(line@, lo as int, hi as int, k as int),
            None => forall|p: int| lo <= p < hi ==> line@[p] != ':',
        },
{
    let mut k: usize = hi;
    while k > lo
        invariant
            lo <= k <= hi <= line@.len(),
            forall|p: int| k <= p < hi ==> line@[p] != ':',
        decreases k,
    {
        k = k - 1;
        if line.get_char(k) == ':' {
            return Some(k);
        }
    }
    None
}

/// Finds the matched coordinate segment of `line`, if there is one: the
/// leftmost maximal non-whitespace run admitting a match, taken from its
/// start to its last colon.
fn find_coordinate(line: &str) -> (r: Option<String>)
    ensures
        match r {
            Some(m) => has_coordinate_match(line@) && m@ == matched_segment(line@),
            None => !has_coordinate_match(line@),
        },
{
    let n = line.unicode_len();
    let mut i: usize = 0;
    while i < n
        invariant
            i <= n == line@.len(),
            forall|lo2: int, hi2: int|
                nonws_run(line@, lo2, hi2) && #[trigger] run_matches(line@, lo2, hi2) ==> i
                    <= lo2,
            i == 0 || i == n || is_ws(line@[i - 1]) || is_ws(line@[i as int]),
        decreases n - i,
    {
        if ws_at(line, i) {
            i = i + 1;
        } else {
            let lo = i;
            let hi = run_end(line, lo);
            assert(nonws_run(line@, lo as int, hi as int));
            let mut viable = false;
            let mut seg_end: usize = 0;
            match first_marker(line, lo, hi) {
                Some(j0) => {
                    match last_colon_in(line, lo, hi) {
                        Some(kk) => {
                            if kk >= j0 && kk - j0 >= 6 {
                                viable = true;
                                seg_end = kk;
                                assert(run_matches(line@, lo as int, hi as int));
                            } else {
                                assert(!run_matches(line@, lo as int, hi as int)) by {
                                    if run_matches(line@, lo as int, hi as int) {
                                        let (j, k) = choose|j: int, k: int|
                                            {
                                                &&& lo + 1 <= j
                                                &&& j + 5 <= hi
                                                &&& jar_marker_at(line@, j)
                                                &&& j + 6 <= k < hi
                                                &&& line@[k] == ':'
                                            };
                                        assert(j0 <= j);
                                        assert(kk < k < hi);
                                        assert(line@[k as int] != ':');
                                    }
                                }
                            }
                        },
                        None => {
                            assert(!run_matches(line@, lo as int, hi as int)) by {
                                if run_matches(line@, lo as int, hi as int) {
                                    let (j, k) = choose|j: int, k: int|
                                        {
                                            &&& lo + 1 <= j
                                            &&& j + 5 <= hi
                                            &&& jar_marker_at(line@, j)
                                            &&& j + 6 <= k < hi
                                            &&& line@[k] == ':'
                                        };
                                }
                            }
                        },
                    }
                },
                None => {
                    assert(!run_matches(line@, lo as int, hi as int)) by {
                        if run_matches(line@, lo as int, hi as int) {
                            let (j, k) = choose|j: int, k: int|
                                {
                                    &&& lo + 1 <= j
                                    &&& j + 5 <= hi
                                    &&& jar_marker_at(line@, j)
                                    &&& j + 6 <= k < hi
                                    &&& line@[k] == ':'
                                };
                        }
                    }
                },
            }
            if viable {
                proof {
                    lemma_matched_segment(line@, lo as int, hi as int, seg_end as int);
                }
                let m = line.substring_char(lo, seg_end + 1).to_owned();
                return Some(m);
            }
            proof {
                assert forall|lo2: int, hi2: int|
                    nonws_run(line@, lo2, hi2) && #[trigger] run_matches(
                        line@,
                        lo2,
                        hi2,
                    ) implies hi <= lo2 by {
                    if lo2 < hi {
                        if lo2 == lo {
                            lemma_run_end_unique(line@, lo2, hi2, hi as int);
                        } else {
                            assert(!is_ws(line@[lo2 - 1]));
                        }
                    }
                }
            }
            i = hi;
        }
    }
    assert(!has_coordinate_match(line@)) by {
        if has_coordinate_match(line@) {
            let (lo2, hi2) = choose|lo2: int, hi2: int|
                nonws_run(line@, lo2, hi2) && run_matches(line@, lo2, hi2);
        }
    }
    None
}

/// `s` split at every occurrence of `c`: one more field than there are
/// occurrences, separators not kept, empty fields kept.
pub open spec fn split_on(s: Seq<char>, c: char) -> Seq<Seq<char>>
    decreases s.len(),
{
    if s.len() == 0 {
        seq![Seq::<char>::empty()]
    } else if s[0] == c {
        seq![Seq::<char>::empty()] + split_on(s.drop_first(), c)
    } else {
        let rest = split_on(s.drop_first(), c);
        seq![seq![s[0]] + rest[0]] + rest.drop_first()
    }
}

/// Splitting yields at least one field.
proof fn lemma_split_on_len(s: Seq<char>, c: char)
    ensures
        split_on(s, c).len() >= 1,
    decreases s.len(),
{
    if s.len() != 0 {
        lemma_split_on_len(s.drop_first(), c);
    }
}

/// Splitting a sequence free of the separator yields that sequence alone.
proof fn lemma_split_on_no_sep(s: Seq<char>, c: char)
    requires
        forall|p: int| 0 <= p < s.len() ==> s[p] != c,
    ensures
        split_on(s, c) == seq![s],
    decreases s.len(),
{
    if s.len() == 0 {
        assert(s =~= Seq::<char>::empty());
    } else {
        lemma_split_on_no_sep(s.drop_first(), c);
        assert(seq![s[0]] + s.drop_first() =~= s);
        assert(split_on(s, c) =~~= seq![s]);
    }
}

/// Splitting at the first separator occurrence: the field before it, then the
/// split of what follows it.
proof fn lemma_split_on_first_sep(s: Seq<char>, c: char, i: int)
    requires
        0 <= i < s.len(),
        s[i] == c,
        forall|p: int| 0 <= p < i ==> s[p] != c,
    ensures
        split_on(s, c) == seq![s.subrange(0, i)] + split_on(s.subrange(i + 1, s.len() as int), c),
    decreases i,
{
    if i == 0 {
        assert(s.subrange(0, 0) =~= Seq::<char>::empty());
        assert(s.subrange(1, s.len() as int) =~= s.drop_first());
        assert(split_on(s, c) =~~= seq![s.subrange(0, 0)] + split_on(
            s.subrange(1, s.len() as int),
            c,
        ));
    } else {
        let t = s.drop_first();
        lemma_split_on_first_sep(t, c, i - 1);
        lemma_split_on_len(t.subrange(i, t.len() as int), c);
        assert(seq![s[0]] + t.subrange(0, i - 1) =~= s.subrange(0, i));
        assert(t.subrange(i, t.len() as int) =~= s.subrange(i + 1, s.len() as int));
        assert(split_on(s, c) =~~= seq![s.subrange(0, i)] + split_on(
            s.subrange(i + 1, s.len() as int),
            c,
        ));
    }
}

/// Splits `s` at every colon.
fn split_colon(s: &str) -> (fields: Vec<String>)
    ensures
        fields@.map_values(|f: String| f@) == split_on(s@, ':'),
{
    let n = s.unicode_len();
    let mut fields: Vec<String> = Vec::new();
    let mut start: usize = 0;
    let mut i: usize = 0;
    proof {
        assert(s@.subrange(0, n as int) =~= s@);
        assert(fields@.map_values(|f: String| f@) =~= Seq::<Seq<char>>::empty());
    }
    while i < n
        invariant
            start <= i <= n == s@.len(),
            forall|p: int| start <= p < i ==> s@[p] != ':',
            split_on(s@, ':') == fields@.map_values(|f: String| f@) + split_on(
                s@.subrange(start as int, n as int),
                ':',
            ),
        decreases n - i,
    {
        if s.get_char(i) == ':' {
            let fld = s.substring_char(start, i).to_owned();
            proof {
                let tail = s@.subrange(start as int, n as int);
                lemma_split_on_first_sep(tail, ':', i - start);
                assert(tail.subrange(0, i - start) =~= s@.subrange(start as int, i as int));
                assert(tail.subrange(i - start + 1, tail.len() as int) =~= s@.subrange(
                    i + 1,
                    n as int,
                ));
                assert(fields@.push(fld).map_values(|f: String| f@) =~= fields@.map_values(
                    |f: String| f@,
                ) + seq![fld@]);
                assert(fields@.map_values(|f: String| f@) + seq![fld@] + split_on(
                    s@.subrange(i + 1, n as int),
                    ':',
                ) =~= fields@.map_values(|f: String| f@) + (seq![s@.subrange(
                    start as int,
                    i as int,
                )] + split_on(s@.subrange(i + 1, n as int), ':')));
            }
            fields.push(fld);
            start = i + 1;
        }
        i = i + 1;
    }
    let fld = s.substring_char(start, n).to_owned();
    proof {
        let tail = s@.subrange(start as int, n as int);
        lemma_split_on_no_sep(tail, ':');
        assert(fields@.push(fld).map_values(|f: String| f@) =~= fields@.map_values(|f: String| f@)
            + seq![fld@]);
        assert(fields@.map_values(|f: String| f@) + seq![tail] =~= split_on(s@, ':'));
    }
    fields.push(fld);
    fields
}

/// Two maximal non-whitespace runs with the same start have the same end.
proof fn lemma_run_end_unique(s: Seq<char>, lo: int, hi1: int, hi2: int)
    requires
        nonws_run(s, lo, hi1),
        nonws_run(s, lo, hi2),
    ensures
        hi1 == hi2,
{
    if hi1 < hi2 {
        assert(!is_ws(s[hi1]));
    }
    if hi2 < hi1 {
        assert(!is_ws(s[hi2]));
    }
}

/// `group` with every dot turned into a path separator.
pub open spec fn dots_to_slashes(s: Seq<char>) -> Seq<char> {
    s.map_values(|c: char| if c == '.' { '/' } else { c })
}

/// The file name of the jar of `artifact` at `version`.
pub open spec fn jar_file_name(artifact: Seq<char>, version: Seq<char>) -> Seq<char> {
    artifact + seq!['-'] + version + seq!['.', 'j', 'a', 'r']
}

/// Where the jar of a coordinate sits inside the repository cache:
/// `repo/group-with-dots-as-slashes/artifact/version/artifact-version.jar`.
pub open spec fn resolved_path(
    repo: Seq<char>,
    group: Seq<char>,
    artifact: Seq<char>,
    version: Seq<char>,
) -> Seq<char> {
    repo + seq!['/'] + dots_to_slashes(group) + seq!['/'] + artifact + seq!['/'] + version + seq![
        '/',
    ] + jar_file_name(artifact, version)
}

/// Why a line was rejected.
#[derive(Clone, Copy, Debug, PartialEq, Eq, Structural)]
pub enum ParseErrorKind {
    /// The line holds no `jar` substring at all.
    NotAJarDependency,
    /// The line holds `jar` but no run of its text has the
    /// `group:artifact:jar:version:` shape.
    RegexNoMatch,
    /// The matched segment does not split into exactly five fields.
    InvalidFormat,
}

/// A rejected line, carried with the reason for diagnostics.
#[derive(Debug)]
pub struct ParseError {
    pub kind: ParseErrorKind,
    pub line: String,
}

/// The five colon-separated fields of the matched segment of `line`:
/// group, artifact, packaging, version and scope. The group, artifact and
/// version fields must be non-empty. An error classifies the rejection; any
/// rejection aborts a whole run.
pub open spec fn parse_fields(line: Seq<char>) -> Result<Seq<Seq<char>>, ParseErrorKind> {
    if !contains_jar(line) {
        Err(ParseErrorKind::NotAJarDependency)
    } else if !has_coordinate_match(line) {
        Err(ParseErrorKind::RegexNoMatch)
    } else {
        let fields = split_on(matched_segment(line), ':');
        if fields.len() != 5 {
            Err(ParseErrorKind::InvalidFormat)
        } else if fields[0].len() == 0 || fields[1].len() == 0 || fields[3].len() == 0 {
            Err(ParseErrorKind::InvalidFormat)
        } else {
            Ok(fields)
        }
    }
}

/// What parsing one line against repository root `repo` returns: the resolved
/// jar path of the line's coordinate, or the classified rejection.
pub open spec fn parse_result(repo: Seq<char>, line: Seq<char>) -> Result<
    Seq<char>,
    ParseErrorKind,
> {
    match parse_fields(line) {
        Ok(fields) => Ok(resolved_path(repo, fields[0], fields[1], fields[3])),
        Err(k) => Err(k),
    }
}

/// A Maven coordinate as parsed from one report line. `group` keeps its dots;
/// they become path separators on resolution. All three fields are non-empty
/// once successfully parsed.
#[derive(Debug)]
pub struct Coordinate {
    pub group: String,
    pub artifact: String,
    pub version: String,
}

/// Extracts the coordinate of one report line: the group, artifact and
/// version fields of the matched segment, each non-empty. The packaging and
/// scope fields are consumed for shape validation only.
pub fn parse_coordinate(line: &str) -> (r: Result<Coordinate, ParseError>)
    ensures
        match r {
            Ok(c) => parse_fields(line@) matches Ok(fields) && c.group@ == fields[0]
                && c.artifact@ == fields[1] && c.version@ == fields[3] && c.group@.len() > 0
                && c.artifact@.len() > 0 && c.version@.len() > 0,
            Err(e) => parse_fields(line@) == Err::<Seq<Seq<char>>, ParseErrorKind>(e.kind)
                && e.line@ == line@,
        },
{
    if !contains_jar_str(line) {
        return Err(ParseError { kind: ParseErrorKind::NotAJarDependency, line: line.to_owned() });
    }
    match find_coordinate(line) {
        None => Err(ParseError { kind: ParseErrorKind::RegexNoMatch, line: line.to_owned() }),
        Some(m) => {
            let fields = split_colon(m.as_str());
            proof {
                let views = fields@.map_values(|f: String| f@);
                assert(views.len() == fields@.len());
                if views.len() == 5 {
                    assert(views[0] == fields@[0]@);
                    assert(views[1] == fields@[1]@);
                    assert(views[3] == fields@[3]@);
                }
            }
            if fields.len() != 5 {
                Err(ParseError { kind: ParseErrorKind::InvalidFormat, line: line.to_owned() })
            } else if fields[0].as_str().is_empty() || fields[1].as_str().is_empty()
                || fields[3].as_str().is_empty() {
                Err(ParseError { kind: ParseErrorKind::InvalidFormat, line: line.to_owned() })
            } else {
                let c = Coordinate {
                    group: fields[0].clone(),
                    artifact: fields[1].clone(),
                    version: fields[3].clone(),
                };
                Ok(c)
            }
        },
    }
}

/// Rewrites every dot of `s` as a path separator.
fn dots_to_slashes_str(s: &str) -> (r: String)
    ensures
        r@ == dots_to_slashes(s@),
{
    let n = s.unicode_len();
    let mut out = String::new();
    let mut i: usize = 0;
    proof {
        assert(out@ =~= dots_to_slashes(s@.subrange(0, 0)));
    }
    while i < n
        invariant
            i <= n == s@.len(),
            out@ == dots_to_slashes(s@.subrange(0, i as int)),
        decreases n - i,
    {
        if s.get_char(i) == '.' {
            out.append("/");
            proof {
                reveal_strlit("/");
            }
        } else {
            let piece = s.substring_char(i, i + 1);
            out.append(piece);
        }
        proof {
            assert(out@ =~= dots_to_slashes(s@.subrange(0, i + 1)));
        }
        i = i + 1;
    }
    proof {
        assert(s@.subrange(0, n as int) =~= s@);
    }
    out
}

/// Resolves a coordinate to the path of its jar inside the repository cache
/// rooted at `m2_repo`.
pub fn resolve(m2_repo: &str, coord: &Coordinate) -> (r: String)
    ensures
        r@ == resolved_path(m2_repo@, coord.group@, coord.artifact@, coord.version@),
{
    let group_path = dots_to_slashes_str(coord.group.as_str());
    let mut path = m2_repo.to_owned();
    path.append("/");
    path.append(group_path.as_str());
    path.append("/");
    path.append(coord.artifact.as_str());
    path.append("/");
    path.append(coord.version.as_str());
    path.append("/");
    path.append(coord.artifact.as_str());
    path.append("-");
    path.append(coord.version.as_str());
    path.append(".jar");
    proof {
        reveal_strlit("/");
        reveal_strlit("-");
        reveal_strlit(".jar");
        assert("/"@ =~= seq!['/']);
        assert("-"@ =~= seq!['-']);
        assert(".jar"@ =~= seq!['.', 'j', 'a', 'r']);
        assert(path@ =~= resolved_path(m2_repo@, coord.group@, coord.artifact@, coord.version@));
    }
    path
}

/// Parses one report line and resolves its coordinate against the repository
/// cache rooted at `m2_repo`. Returns the jar path the line points at, or the
/// classified rejection carrying the offending line.
pub fn parse(m2_repo: &str, line: &str) -> (r: Result<String, ParseError>)
    ensures
        match r {
            Ok(path) => parse_result(m2_repo@, line@) == Ok::<Seq<char>, ParseErrorKind>(path@),
            Err(e) => parse_result(m2_repo@, line@) == Err::<Seq<char>, ParseErrorKind>(e.kind)
                && e.line@ == line@,
        },
{
    match parse_coordinate(line) {
        Ok(c) => Ok(resolve(m2_repo, &c)),
        Err(e) => Err(e),
    }
}

/// Parses every line of a report, fail-fast: either every line resolves, and
/// the paths come back in input order, or the first rejection aborts the run
/// and no path is produced.
pub fn parse_all(m2_repo: &str, lines: &Vec<String>) -> (r: Result<Vec<String>, ParseError>)
    ensures
        match r {
            Ok(paths) => paths@.len() == lines@.len() && forall|i: int|
                0 <= i < lines@.len() ==> #[trigger] parse_result(m2_repo@, lines@[i]@)
                    == Ok::<Seq<char>, ParseErrorKind>(paths@[i]@),
            Err(e) => exists|i: int|
                {
                    &&& 0 <= i < lines@.len()
                    &&& #[trigger] parse_result(m2_repo@, lines@[i]@) == Err::<
                        Seq<char>,
                        ParseErrorKind,
                    >(e.kind)
                    &&& e.line@ == lines@[i]@
                    &&& forall|p: int|
                        0 <= p < i ==> #[trigger] parse_result(m2_repo@, lines@[p]@) is Ok
                },
        },
{
    let mut paths: Vec<String> = Vec::new();
    let mut idx: usize = 0;
    while idx < lines.len()
        invariant
            idx <= lines@.len(),
            paths@.len() == idx,
            forall|p: int|
                0 <= p < idx ==> #[trigger] parse_result(m2_repo@, lines@[p]@) == Ok::<
                    Seq<char>,
                    ParseErrorKind,
                >(paths@[p]@),
        decreases lines@.len() - idx,
    {
        match parse(m2_repo, lines[idx].as_str()) {
            Ok(path) => {
                paths.push(path);
            },
            Err(e) => {
                return Err(e);
            },
        }
        idx = idx + 1;
    }
    Ok(paths)
}

/// Reads a jar file name back into an artifact and a version: the name must
/// end in `.jar`, and the stem splits at its last hyphen. An artifact or a
/// version with a hyphen in an ambiguous position cannot be told apart from
/// other pairs that give the same name; the last hyphen is the convention
/// used here.
pub open spec fn split_jar_name(name: Seq<char>) -> Option<(Seq<char>, Seq<char>)> {
    if name.len() >= 4 && name.subrange(name.len() - 4, name.len() as int) == seq![
        '.',
        'j',
        'a',
        'r',
    ] {
        let stem = name.subrange(0, name.len() - 4);
        let h = last_index_of(stem, '-');
        if h >= 0 {
            Some((stem.subrange(0, h), stem.subrange(h + 1, stem.len() as int)))
        } else {
            None
        }
    } else {
        None
    }
}

/// Reads a jar file name back into its artifact and version parts, splitting
/// the stem at its last hyphen.
pub fn split_jar_file_name(name: &str) -> (r: Option<(String, String)>)
    ensures
        match r {
            Some(av) => split_jar_name(name@) == Some((av.0@, av.1@)),
            None => split_jar_name(name@) is None,
        },
{
    let n = name.unicode_len();
    if n < 4 {
        return None;
    }
    if !(name.get_char(n - 4) == '.' && name.get_char(n - 3) == 'j' && name.get_char(n - 2) == 'a'
        && name.get_char(n - 1) == 'r') {
        proof {
            let suffix = name@.subrange(n - 4, n as int);
            if suffix == seq!['.', 'j', 'a', 'r'] {
                assert(suffix[0] == '.' && suffix[1] == 'j' && suffix[2] == 'a' && suffix[3]
                    == 'r');
            }
        }
        return None;
    }
    proof {
        assert(name@.subrange(n - 4, n as int) =~= seq!['.', 'j', 'a', 'r']);
    }
    let stem_len = n - 4;
    let ghost stem = name@.subrange(0, n - 4);
    let mut k: usize = stem_len;
    while k > 0
        invariant
            k <= stem_len == n - 4,
            4 <= n == name@.len(),
            name@.subrange(n as int - 4, n as int) == seq!['.', 'j', 'a', 'r'],
            stem == name@.subrange(0, n - 4),
            forall|p: int| k <= p < stem_len ==> name@[p] != '-',
        decreases k,
    {
        k = k - 1;
        if name.get_char(k) == '-' {
            let artifact = name.substring_char(0, k).to_owned();
            let version = name.substring_char(k + 1, stem_len).to_owned();
            proof {
                lemma_last_index_of(stem, '-');
                assert(forall|p: int| 0 <= p < stem.len() ==> stem[p] == name@[p]);
                assert(stem[k as int] == '-');
                assert(last_index_of(stem, '-') == k as int);
                assert(stem.subrange(0, k as int) =~= name@.subrange(0, k as int));
                assert(stem.subrange(k + 1, stem.len() as int) =~= name@.subrange(
                    k + 1,
                    stem_len as int,
                ));
            }
            return Some((artifact, version));
        }
    }
    proof {
        lemma_last_index_of(stem, '-');
        assert(forall|p: int| 0 <= p < stem.len() ==> stem[p] == name@[p]);
        assert(last_index_of(stem, '-') == -1);
    }
    None
}

/// The last occurrence of `c` in `x + [c] + y` is the one between `x` and
/// `y`, provided `y` is free of `c`.
proof fn lemma_last_index_after_sep(x: Seq<char>, y: Seq<char>, c: char)
    requires
        forall|p: int| 0 <= p < y.len() ==> y[p] != c,
    ensures
        last_index_of(x + seq![c] + y, c) == x.len(),
    decreases y.len(),
{
    let s = x + seq![c] + y;
    if y.len() == 0 {
        assert(s[s.len() - 1] == c);
    } else {
        assert(s[s.len() - 1] == y[y.len() - 1]);
        lemma_last_index_after_sep(x, y.drop_last(), c);
        assert(s.drop_last() =~= x + seq![c] + y.drop_last());
    }
}

/// Law: a jar file name built from an artifact and a version splits back into
/// exactly that pair, provided the version holds no hyphen. (With a hyphen
/// inside the version the split point is ambiguous: `a-b` at `1.0` and `a` at
/// `b-1.0` name the same file. That ambiguity is inherent in the name.)
pub proof fn lemma_jar_name_round_trip(artifact: Seq<char>, version: Seq<char>)
    requires
        forall|p: int| 0 <= p < version.len() ==> version[p] != '-',
    ensures
        split_jar_name(jar_file_name(artifact, version)) == Some((artifact, version)),
{
    let name = jar_file_name(artifact, version);
    let stem = artifact + seq!['-'] + version;
    assert(name.subrange(name.len() - 4, name.len() as int) =~= seq!['.', 'j', 'a', 'r']);
    assert(name.subrange(0, name.len() - 4) =~= stem);
    lemma_last_index_after_sep(artifact, version, '-');
    assert(stem.subrange(0, artifact.len() as int) =~= artifact);
    assert(stem.subrange(artifact.len() as int + 1, stem.len() as int) =~= version);
}

/// Law: the file name of a resolved path is the jar file name of the
/// coordinate, provided neither the artifact nor the version holds a path
/// separator.
pub proof fn lemma_resolved_file_name(
    repo: Seq<char>,
    group: Seq<char>,
    artifact: Seq<char>,
    version: Seq<char>,
)
    requires
        forall|p: int| 0 <= p < artifact.len() ==> artifact[p] != '/',
        forall|p: int| 0 <= p < version.len() ==> version[p] != '/',
    ensures
        file_name_spec(resolved_path(repo, group, artifact, version)) == jar_file_name(
            artifact,
            version,
        ),
{
    let full = resolved_path(repo, group, artifact, version);
    let name = jar_file_name(artifact, version);
    let front = repo + seq!['/'] + dots_to_slashes(group) + seq!['/'] + artifact + seq!['/']
        + version;
    assert(full =~= front + seq!['/'] + name);
    assert(forall|p: int| 0 <= p < name.len() ==> name[p] != '/') by {
        assert(forall|p: int| 0 <= p < name.len() ==> name[p] == artifact[p] || name[p] == '-'
            || (artifact.len() < p < artifact.len() + 1 + version.len() && name[p] == version[p
            - artifact.len() - 1]) || name[p] == '.' || name[p] == 'j' || name[p] == 'a'
            || name[p] == 'r');
    }
    lemma_last_index_after_sep(front, name, '/');
    assert(full.subrange(front.len() as int + 1, full.len() as int) =~= name);
}

/// Law: resolving a coordinate and then reading the file name of the resolved
/// path back recovers the artifact and the version, provided neither holds a
/// path separator and the version holds no hyphen.
pub proof fn lemma_round_trip(
    repo: Seq<char>,
    group: Seq<char>,
    artifact: Seq<char>,
    version: Seq<char>,
)
    requires
        forall|p: int| 0 <= p < artifact.len() ==> artifact[p] != '/',
        forall|p: int| 0 <= p < version.len() ==> version[p] != '/',
        forall|p: int| 0 <= p < version.len() ==> version[p] != '-',
    ensures
        split_jar_name(file_name_spec(resolved_path(repo, group, artifact, version))) == Some(
            (artifact, version),
        ),
{
    lemma_resolved_file_name(repo, group, artifact, version);
    lemma_jar_name_round_trip(artifact, version);
}

/// Law: a line without the substring `jar` is always rejected as not naming
/// a jar dependency, whatever the repository root.
pub proof fn lemma_no_jar_rejected(repo: Seq<char>, line: Seq<char>)
    requires
        !contains_jar(line),
    ensures
        parse_result(repo, line) == Err::<Seq<char>, ParseErrorKind>(
            ParseErrorKind::NotAJarDependency,
        ),
{
}

/// Law: a line that holds `jar` but not the expected shape is rejected as
/// unmatched when no run of its text carries the coordinate shape, and as
/// ill-formed when the matched segment has the wrong field count or an empty
/// group, artifact or version field.
pub proof fn lemma_bad_shape_rejected(repo: Seq<char>, line: Seq<char>)
    requires
        contains_jar(line),
    ensures
        !has_coordinate_match(line) ==> parse_result(repo, line) == Err::<
            Seq<char>,
            ParseErrorKind,
        >(ParseErrorKind::RegexNoMatch),
        has_coordinate_match(line) && split_on(matched_segment(line), ':').len() != 5
            ==> parse_result(repo, line) == Err::<Seq<char>, ParseErrorKind>(
            ParseErrorKind::InvalidFormat,
        ),
        has_coordinate_match(line) && split_on(matched_segment(line), ':').len() == 5 && (split_on(
            matched_segment(line),
            ':',
        )[0].len() == 0 || split_on(matched_segment(line), ':')[1].len() == 0 || split_on(
            matched_segment(line),
            ':',
        )[3].len() == 0) ==> parse_result(repo, line) == Err::<Seq<char>, ParseErrorKind>(
            ParseErrorKind::InvalidFormat,
        ),
{
}

/// A report line whose coordinate is well formed: some prefix of tree-drawing
/// text, then `group:artifact:jar:version:scope`.
pub open spec fn coordinate_text(
    group: Seq<char>,
    artifact: Seq<char>,
    version: Seq<char>,
    scope: Seq<char>,
) -> Seq<char> {
    group + seq![':'] + artifact + seq![':', 'j', 'a', 'r', ':'] + version + seq![':'] + scope
}

/// Where each part of a well-formed line sits: the layout of
/// `prefix + coordinate_text(group, artifact, version, scope)`.
#[verifier::spinoff_prover]
proof fn lemma_line_layout(
    prefix: Seq<char>,
    group: Seq<char>,
    artifact: Seq<char>,
    version: Seq<char>,
    scope: Seq<char>,
)
    ensures
        ({
            let line = prefix + coordinate_text(group, artifact, version, scope);
            let pl = prefix.len() as int;
            let gl = group.len() as int;
            let al = artifact.len() as int;
            let vl = version.len() as int;
            let j = pl + gl + 1 + al;
            let kk = j + 5 + vl;
            &&& line.len() == kk + 1 + scope.len()
            &&& forall|i: int| 0 <= i < pl ==> #[trigger] line[i] == prefix[i]
            &&& forall|i: int| pl <= i < pl + gl ==> #[trigger] line[i] == group[i - pl]
            &&& line[pl + gl] == ':'
            &&& forall|i: int| pl + gl + 1 <= i < j ==> #[trigger] line[i] == artifact[i - (pl + gl + 1)]
            &&& line[j] == ':'
            &&& line[j + 1] == 'j'
            &&& line[j + 2] == 'a'
            &&& line[j + 3] == 'r'
            &&& line[j + 4] == ':'
            &&& forall|i: int| j + 5 <= i < kk ==> #[trigger] line[i] == version[i - (j + 5)]
            &&& line[kk] == ':'
            &&& forall|i: int| kk + 1 <= i < line.len() ==> #[trigger] line[i] == scope[i - (kk + 1)]
        }),
{
}

/// Splitting `group:artifact:jar:version:` on colons gives exactly the five
/// fields, when group, artifact and version are free of colons.
#[verifier::spinoff_prover]
proof fn lemma_segment_fields(group: Seq<char>, artifact: Seq<char>, version: Seq<char>)
    requires
        forall|p: int| 0 <= p < group.len() ==> group[p] != ':',
        forall|p: int| 0 <= p < artifact.len() ==> artifact[p] != ':',
        forall|p: int| 0 <= p < version.len() ==> version[p] != ':',
    ensures
        split_on(
            group + seq![':'] + artifact + seq![':', 'j', 'a', 'r', ':'] + version + seq![':'],
            ':',
        ) == seq![group, artifact, seq!['j', 'a', 'r'], version, Seq::<char>::empty()],
{
    let m = group + seq![':'] + artifact + seq![':', 'j', 'a', 'r', ':'] + version + seq![':'];
    let m1 = artifact + seq![':', 'j', 'a', 'r', ':'] + version + seq![':'];
    let m2 = seq!['j', 'a', 'r', ':'] + version + seq![':'];
    let m3 = version + seq![':'];
    let gl = group.len() as int;
    let al = artifact.len() as int;
    let vl = version.len() as int;
    assert(m =~= group + seq![':'] + m1);
    assert(m[gl] == ':');
    lemma_split_on_first_sep(m, ':', gl);
    assert(m.subrange(0, gl) =~= group);
    assert(m.subrange(gl + 1, m.len() as int) =~= m1);
    assert(m1[al] == ':');
    lemma_split_on_first_sep(m1, ':', al);
    assert(m1.subrange(0, al) =~= artifact);
    assert(m1.subrange(al + 1, m1.len() as int) =~= m2);
    assert(m2[3] == ':');
    lemma_split_on_first_sep(m2, ':', 3);
    assert(m2.subrange(0, 3) =~= seq!['j', 'a', 'r']);
    assert(m2.subrange(4, m2.len() as int) =~= m3);
    assert(m3[vl] == ':');
    lemma_split_on_first_sep(m3, ':', vl);
    assert(m3.subrange(0, vl) =~= version);
    assert(m3.subrange(vl + 1, m3.len() as int) =~= Seq::<char>::empty());
    assert(split_on(m, ':') =~~= seq![
        group,
        artifact,
        seq!['j', 'a', 'r'],
        version,
        Seq::<char>::empty(),
    ]);
}

/// Law: every well-formed report line parses, and resolves to the repository
/// path of its coordinate. Well formed means: the prefix is empty or ends in
/// whitespace and holds no `:jar:` marker; group, artifact and version are
/// non-empty; and none of the four coordinate fields holds a colon or
/// whitespace.
#[verifier::rlimit(100)]
#[verifier::spinoff_prover]
pub proof fn lemma_well_formed_line(
    repo: Seq<char>,
    prefix: Seq<char>,
    group: Seq<char>,
    artifact: Seq<char>,
    version: Seq<char>,
    scope: Seq<char>,
)
    requires
        prefix.len() == 0 || is_ws(prefix[prefix.len() - 1]),
        forall|p: int| !jar_marker_at(prefix, p),
        group.len() > 0,
        artifact.len() > 0,
        version.len() > 0,
        forall|p: int| 0 <= p < group.len() ==> group[p] != ':' && !is_ws(#[trigger] group[p]),
        forall|p: int|
            0 <= p < artifact.len() ==> artifact[p] != ':' && !is_ws(#[trigger] artifact[p]),
        forall|p: int|
            0 <= p < version.len() ==> version[p] != ':' && !is_ws(#[trigger] version[p]),
        forall|p: int| 0 <= p < scope.len() ==> scope[p] != ':' && !is_ws(#[trigger] scope[p]),
    ensures
        parse_result(repo, prefix + coordinate_text(group, artifact, version, scope)) == Ok::<
            Seq<char>,
            ParseErrorKind,
        >(resolved_path(repo, group, artifact, version)),
{
    let line = prefix + coordinate_text(group, artifact, version, scope);
    let pl = prefix.len() as int;
    let gl = group.len() as int;
    let al = artifact.len() as int;
    let vl = version.len() as int;
    let j = pl + gl + 1 + al;
    let kk = j + 5 + vl;
    let n = line.len() as int;
    lemma_line_layout(prefix, group, artifact, version, scope);
    assert(n == kk + 1 + scope.len());
    // The line names a jar.
    assert(has_jar_at(line, j + 1));
    // Its one matching run is the coordinate text, and the last colon of that
    // run is the one before the scope.
    assert(nonws_run(line, pl, n)) by {
        assert forall|i: int| pl <= i < n implies !is_ws(#[trigger] line[i]) by {
            if i < pl + gl {
                assert(line[i] == group[i - pl]);
            } else if i < j {
                if i > pl + gl {
                    assert(line[i] == artifact[i - (pl + gl + 1)]);
                }
            } else if i < j + 5 {
            } else if i < kk {
                assert(line[i] == version[i - (j + 5)]);
            } else if i > kk {
                assert(line[i] == scope[i - (kk + 1)]);
            }
        }
    }
    assert(run_matches(line, pl, n)) by {
        assert({
            &&& pl + 1 <= j
            &&& j + 5 <= n
            &&& jar_marker_at(line, j)
            &&& j + 6 <= kk < n
            &&& line[kk] == ':'
        });
    }
    assert forall|lo2: int, hi2: int|
        nonws_run(line, lo2, hi2) && #[trigger] run_matches(line, lo2, hi2) implies pl <= lo2 by {
        if lo2 < pl {
            assert(is_ws(line[pl - 1]));
            assert(hi2 <= pl - 1);
            let (j2, k2) = choose|j2: int, k2: int|
                {
                    &&& lo2 + 1 <= j2
                    &&& j2 + 5 <= hi2
                    &&& jar_marker_at(line, j2)
                    &&& j2 + 6 <= k2 < hi2
                    &&& line[k2] == ':'
                };
            assert(line[j2] == prefix[j2] && line[j2 + 1] == prefix[j2 + 1] && line[j2 + 2]
                == prefix[j2 + 2] && line[j2 + 3] == prefix[j2 + 3] && line[j2 + 4] == prefix[j2
                + 4]);
            assert(jar_marker_at(prefix, j2));
        }
    }
    assert(is_first_matching_run(line, pl, n));
    assert(is_last_colon(line, pl, n, kk)) by {
        assert forall|k2: int| kk < k2 < n implies line[k2] != ':' by {
            assert(line[k2] == scope[k2 - (kk + 1)]);
        }
    }
    lemma_matched_segment(line, pl, n, kk);
    let m = group + seq![':'] + artifact + seq![':', 'j', 'a', 'r', ':'] + version + seq![':'];
    assert(matched_segment(line) =~= m);
    lemma_segment_fields(group, artifact, version);
    let fields = split_on(matched_segment(line), ':');
    assert(fields.len() == 5);
    assert(fields[0] == group && fields[1] == artifact && fields[3] == version);
}

/// The matched segment of a line runs from the start of the first matching
/// run to that run's last colon.
proof fn lemma_matched_segment(s: Seq<char>, lo: int, hi: int, k: int)
    requires
        is_first_matching_run(s, lo, hi),
        is_last_colon(s, lo, hi, k),
    ensures
        matched_segment(s) == s.subrange(lo, k + 1),
{
    assert(exists|lo2: int, hi2: int| is_first_matching_run(s, lo2, hi2));
    let (lo2, hi2) = choose|lo2: int, hi2: int| is_first_matching_run(s, lo2, hi2);
    assert(lo2 == lo);
    lemma_run_end_unique(s, lo, hi2, hi);
    assert(exists|k2: int| is_last_colon(s, lo2, hi2, k2));
    let k2 = choose|k2: int| is_last_colon(s, lo2, hi2, k2);
    if k2 < k {
        assert(s[k] == ':');
    }
    if k < k2 {
        assert(s[k2] == ':');
    }
}

} // verus!
