//! npm-style version ranges (`^1.2.0 || 2.x`, `1.0.0 - 2.0.0`, `>=1.0 <2`)
//! rewritten into the syntax of the `semver` crate, which parses and evaluates
//! them.

use vstd::prelude::*;
use crate::text::{
    chars_of, is_ascii_digit, trim, trim_chars, find_sub, find_literal, replace_all,
    replace_literal, split_by, split_literal, string_of, slice, is_literal, occurs_at,
};

verus! {

#[verifier::external_type_specification]
#[verifier::external_body]
pub struct ExSemverVersion(semver::Version);

#[verifier::external_type_specification]
#[verifier::external_body]
pub struct ExSemverVersionReq(semver::VersionReq);

/// The text that `semver::Version::parse` followed by `Display` gives for
/// `text`, or `None` where the parse fails.
pub uninterp spec fn semver_version_text(text: Seq<char>) -> Option<Seq<char>>;

/// Whether the version shown as `a` is lower than the version shown as `b` in
/// the total order of `semver::Version` (`<`).
pub uninterp spec fn semver_precedes(a: Seq<char>, b: Seq<char>) -> bool;

/// Whether `semver::VersionReq::parse` accepts `text`.
pub uninterp spec fn semver_req_parses(text: Seq<char>) -> bool;

/// The text (`Display`) of the error that `semver::VersionReq::parse` gives
/// for `text`.
pub uninterp spec fn semver_req_error(text: Seq<char>) -> Seq<char>;

/// Whether the requirement parsed from `req` matches the version shown as
/// `version` (`semver::VersionReq::matches`).
pub uninterp spec fn semver_req_matches(req: Seq<char>, version: Seq<char>) -> bool;

/// A semantic version: its text as `semver::Version` shows it, beside the
/// parsed value. Only [`parse_version`] makes one, from a single parse.
pub struct SemVer {
    text: String,
    parsed: semver::Version,
}

impl View for SemVer {
    type V = Seq<char>;

    closed spec fn view(&self) -> Seq<char> {
        self.text@
    }
}

/// Parses `text` with `semver::Version::parse`.
///
/// Trusted: the version keeps its `Display` text, and the result is the name
/// [`semver_version_text`] of the argument. That text has no `@`: the
/// `semver` documentation shows it as numbers and dots, then identifiers of
/// ASCII letters, digits and hyphens after `-` and `+`. And that text parses
/// back to the same version, shown the same way: `Display` writes the
/// numbers without leading zeros and the identifiers as they were parsed.
#[verifier::external_body]
pub(crate) fn parse_version(text: &str) -> (r: Option<SemVer>)
    ensures
        match r {
            Some(v) => semver_version_text(text@) == Some(v@),
            None => semver_version_text(text@) is None,
        },
        r matches Some(v) ==> !v@.contains('@'),
        r matches Some(v) ==> semver_version_text(v@) == Some(v@),
{
    match semver::Version::parse(text) {
        Ok(parsed) => Some(SemVer { text: parsed.to_string(), parsed }),
        Err(_) => None,
    }
}

/// Whether `a` is lower than `b`, by the `Ord` of `semver::Version`.
///
/// Trusted: the result is the name [`semver_precedes`] of the two versions'
/// texts (the parsed value of a [`SemVer`] is the one its text shows).
#[verifier::external_body]
pub(crate) fn version_lt(a: &SemVer, b: &SemVer) -> (r: bool)
    ensures
        r == semver_precedes(a@, b@),
{
    a.parsed < b.parsed
}

/// A copy of `v` (`Clone` of `String` and of `semver::Version`).
///
/// Trusted: the copy has the same text.
#[verifier::external_body]
pub(crate) fn copy_version(v: &SemVer) -> (r: SemVer)
    ensures
        r@ == v@,
{
    SemVer { text: v.text.clone(), parsed: v.parsed.clone() }
}

impl SemVer {
    /// The text of a version is the one `semver` shows for it, which parses
    /// back to the same version, and has no `@`.
    #[verifier::type_invariant]
    pub open spec fn shown_as_parsed(self) -> bool {
        &&& semver_version_text(self@) == Some(self@)
        &&& !self@.contains('@')
    }

    /// The version that `text` reads, if it is one: `semver` syntax, such as
    /// `1.2.3` or `2.0.0-beta.1`.
    pub fn parse(text: &str) -> (r: Option<SemVer>)
        ensures
            match r {
                Some(v) => semver_version_text(text@) == Some(v@),
                None => semver_version_text(text@) is None,
            },
            r matches Some(v) ==> !v@.contains('@'),
            r matches Some(v) ==> semver_version_text(v@) == Some(v@),
    {
        parse_version(text)
    }

    /// Whether this version comes before `other` in the order of versions.
    pub fn precedes(&self, other: &SemVer) -> (r: bool)
        ensures
            r == semver_precedes(self@, other@),
    {
        version_lt(self, other)
    }

    /// A copy of the version.
    pub fn duplicate(&self) -> (r: SemVer)
        ensures
            r@ == self@,
    {
        copy_version(self)
    }

    /// The version as text (`Display` of `semver::Version`).
    pub fn to_text(&self) -> (r: String)
        ensures
            r@ == self@,
    {
        self.text.clone()
    }
}

/// One `semver` requirement, with the text it was parsed from.
pub struct Req {
    text: String,
    parsed: semver::VersionReq,
}

impl View for Req {
    type V = Seq<char>;

    closed spec fn view(&self) -> Seq<char> {
        self.text@
    }
}

/// Parses `text` with `semver::VersionReq::parse`.
///
/// Trusted: it succeeds exactly where the name [`semver_req_parses`] holds of
/// `text`, and the requirement keeps `text`; where it fails, it gives the
/// text of `semver`'s error, the name [`semver_req_error`] of `text`.
#[verifier::external_body]
fn parse_req(text: &String) -> (r: Result<Req, String>)
    ensures
        r is Ok <==> semver_req_parses(text@),
        r matches Ok(q) ==> q@ == text@,
        r matches Err(m) ==> m@ == semver_req_error(text@),
{
    match semver::VersionReq::parse(text) {
        Ok(parsed) => Ok(Req { text: text.clone(), parsed }),
        Err(e) => Err(e.to_string()),
    }
}

/// `semver::VersionReq::STAR`, which the `semver` documentation calls
/// equivalent to `VersionReq::parse("*").unwrap()`.
#[verifier::external_body]
fn star_req() -> (r: Req)
    ensures
        r@ == "*"@,
        semver_req_parses(r@),
{
    Req { text: "*".to_string(), parsed: semver::VersionReq::STAR }
}

/// Whether requirement `q` matches version `v` (`semver::VersionReq::matches`).
///
/// Trusted: the result is the name [`semver_req_matches`] of the two texts.
#[verifier::external_body]
fn req_matches(q: &Req, v: &SemVer) -> (r: bool)
    ensures
        r == semver_req_matches(q@, v@),
{
    q.parsed.matches(&v.parsed)
}

/// Whether `c` continues a version in a range: a digit, `.` or `*`.
pub open spec fn is_version_char(c: char) -> bool {
    is_ascii_digit(c) || c == '.' || c == '*'
}

/// The text `s` with a comma in place of each space that follows a version
/// character, `after_version` telling whether the text before `s` ended in
/// one.
pub open spec fn commas_from(s: Seq<char>, after_version: bool) -> Seq<char>
    decreases s.len(),
{
    if s.len() == 0 {
        s
    } else if s[0] == ' ' && after_version {
        seq![','] + commas_from(s.drop_first(), false)
    } else {
        seq![s[0]] + commas_from(s.drop_first(), is_version_char(s[0]))
    }
}

/// The range `s` with comparators separated by commas: `>=1.0 <2` becomes
/// `>=1.0,<2`.
pub open spec fn with_commas(s: Seq<char>) -> Seq<char> {
    commas_from(s, false)
}

/// Inserts the commas that the `semver` crate wants between comparators.
pub fn add_commas(input: &str) -> (r: String)
    ensures
        r@ == with_commas(input@),
{
    let s = chars_of(input);
    let mut out: Vec<char> = Vec::new();
    let mut prev_was_version_char = false;
    let mut i: usize = 0;
    assert(s@.skip(0) =~= s@);
    while i < s.len()
        invariant
            i <= s@.len(),
            s@ == input@,
            with_commas(s@) == out@ + commas_from(s@.skip(i as int), prev_was_version_char),
        decreases s@.len() - i,
    {
        let c = s[i];
        let ghost old_out = out@;
        let ghost old_prev = prev_was_version_char;
        assert(s@.skip(i as int).drop_first() =~= s@.skip(i + 1));
        assert(s@.skip(i as int)[0] == c);
        if c == ' ' && prev_was_version_char {
            out.push(',');
            prev_was_version_char = false;
        } else {
            out.push(c);
            prev_was_version_char = ('0' <= c && c <= '9') || c == '.' || c == '*';
        }
        assert(commas_from(s@.skip(i as int), old_prev) == seq![out@.last()] + commas_from(
            s@.skip(i + 1),
            prev_was_version_char,
        ));
        assert(out@ =~= old_out.push(out@.last()));
        assert(old_out + (seq![out@.last()] + commas_from(s@.skip(i + 1), prev_was_version_char))
            =~= out@ + commas_from(s@.skip(i + 1), prev_was_version_char));
        i = i + 1;
    }
    assert(out@ + commas_from(s@.skip(i as int), prev_was_version_char) =~= out@);
    string_of(&out)
}

/// Whether `c` may stand in a bare version: an ASCII letter or digit, `.`,
/// `-` or `+`.
pub open spec fn is_bare_version_char(c: char) -> bool {
    is_ascii_digit(c) || c == '.' || c == '-' || c == '+' || ('a' <= c && c <= 'z') || ('A' <= c && c <= 'Z')
}

/// Whether `t` is a bare version such as `18.2.0` or `1.2`, with no operator:
/// it starts with a digit and has only version characters.
pub open spec fn is_bare_version(t: Seq<char>) -> bool {
    t.len() > 0 && is_ascii_digit(t[0]) && forall|i: int| 0 <= i < t.len() ==> is_bare_version_char(#[trigger] t[i])
}

/// The range `input` in the syntax of the `semver` crate: `.x` becomes `.*`,
/// a hyphen range `a - b` becomes `>=a, <=b`, a bare version pins itself
/// (`18.2.0` becomes `=18.2.0`, as npm reads it), and commas separate the
/// comparators.
pub open spec fn normalised_range(input: Seq<char>) -> Seq<char> {
    let r = replace_all(input, ".x"@, ".*"@);
    let r2 = match find_sub(r, " - "@) {
        Some(i) => ">="@ + trim(r.take(i)) + ", <="@ + trim(r.skip(i + 3)),
        None => if is_bare_version(r) {
            "="@ + r
        } else {
            r
        },
    };
    with_commas(r2)
}

/// Whether `t` is a bare version (see [`is_bare_version`]).
fn bare_version(t: &Vec<char>) -> (r: bool)
    ensures
        r == is_bare_version(t@),
{
    if t.len() == 0 || !('0' <= t[0] && t[0] <= '9') {
        return false;
    }
    let mut i: usize = 0;
    while i < t.len()
        invariant
            i <= t@.len(),
            forall|k: int| 0 <= k < i ==> is_bare_version_char(#[trigger] t@[k]),
        decreases t@.len() - i,
    {
        let c = t[i];
        if !(('0' <= c && c <= '9') || c == '.' || c == '-' || c == '+' || ('a' <= c && c <= 'z') || ('A' <= c
            && c <= 'Z')) {
            return false;
        }
        i = i + 1;
    }
    true
}

/// Rewrites one npm range into the syntax of the `semver` crate.
pub fn normalise_range(input: &str) -> (r: String)
    ensures
        r@ == normalised_range(input@),
{
    let s = chars_of(input);
    let from = chars_of(".x");
    let to = chars_of(".*");
    let range = replace_literal(&s, &from, &to);
    let dash = chars_of(" - ");
    let r2 = match find_literal(&range, &dash) {
        Some(index) => {
            proof {
                reveal_strlit(" - ");
            }
            let n = range.len();
            let left = trim_chars(&slice(&range, 0, index));
            let right = trim_chars(&slice(&range, index + 3, n));
            let mut out: Vec<char> = Vec::new();
            crate::text::append_str(&mut out, ">=");
            crate::text::append_chars(&mut out, &left);
            crate::text::append_str(&mut out, ", <=");
            crate::text::append_chars(&mut out, &right);
            proof {
                assert(range@.subrange(0, index as int) =~= range@.take(index as int));
                assert(range@.subrange(index + 3, n as int) =~= range@.skip(index + 3));
            }
            out
        },
        None => {
            if bare_version(&range) {
                let mut out: Vec<char> = Vec::new();
                crate::text::append_str(&mut out, "=");
                crate::text::append_chars(&mut out, &range);
                out
            } else {
                range
            }
        },
    };
    let text = string_of(&r2);
    add_commas(text.as_str())
}

/// Why a range was refused: the part, between `||`, that `semver` could not
/// parse, as the user wrote it, and what `semver` said of it.
pub struct RangeError {
    pub range: String,
    pub cause: String,
}

/// An npm version range: any of its requirements may match.
pub struct NpmVersionReq {
    reqs: Vec<Req>,
}

impl View for NpmVersionReq {
    type V = Seq<Seq<char>>;

    closed spec fn view(&self) -> Seq<Seq<char>> {
        self.reqs@.map_values(|q: Req| q@)
    }
}

/// Whether the trimmed range `t` means "any version".
pub open spec fn is_any_range(t: Seq<char>) -> bool {
    t.len() == 0 || t == "*"@ || t == "latest"@
}

/// The parts of `input` between `||`, trimmed.
pub open spec fn range_parts(input: Seq<char>) -> Seq<Seq<char>> {
    split_by(trim(input), "||"@).map_values(|p: Seq<char>| trim(p))
}

/// The requirements in `semver` syntax that `input` stands for.
pub open spec fn range_texts(input: Seq<char>) -> Seq<Seq<char>> {
    if is_any_range(trim(input)) {
        seq!["*"@]
    } else {
        range_parts(input).map_values(|p: Seq<char>| normalised_range(p))
    }
}

/// Whether `semver` accepts every requirement that `input` stands for.
pub open spec fn range_ok(input: Seq<char>) -> bool {
    forall|i: int|
        0 <= i < range_texts(input).len() ==> semver_req_parses(#[trigger] range_texts(input)[i])
}

impl NpmVersionReq {
    /// Parses an npm range. An empty range, `*` and `latest` mean any
    /// version; otherwise each part between `||` is rewritten by
    /// [`normalise_range`] and must be accepted by `semver`.
    pub fn parse(input: &str) -> (r: Result<NpmVersionReq, RangeError>)
        ensures
            match r {
                Ok(q) => q@ == range_texts(input@) && forall|i: int|
                    0 <= i < q@.len() ==> semver_req_parses(#[trigger] q@[i]),
                Err(e) => !is_any_range(trim(input@)) && exists|j: int|
                    0 <= j < range_parts(input@).len() && !semver_req_parses(
                        #[trigger] range_texts(input@)[j],
                    ) && e.range@ == range_parts(input@)[j] && e.cause@ == semver_req_error(range_texts(input@)[j])
                        && forall|k: int| 0 <= k < j ==> semver_req_parses(range_texts(input@)[k]),
            },
            r is Ok <==> range_ok(input@),
    {
        let all = chars_of(input);
        let t = trim_chars(&all);
        if t.len() == 0 || is_literal(&t, "*") || is_literal(&t, "latest") {
            let mut reqs: Vec<Req> = Vec::new();
            reqs.push(star_req());
            let q = NpmVersionReq { reqs };
            assert(q@ =~= seq!["*"@]);
            return Ok(q);
        }
        let sep = chars_of("||");
        proof {
            reveal_strlit("||");
        }
        let parts = split_literal(&t, &sep);
        let ghost texts = range_texts(input@);
        let ghost pieces = range_parts(input@);
        assert(pieces.len() == parts@.len());
        let mut reqs: Vec<Req> = Vec::with_capacity(parts.len());
        let mut i: usize = 0;
        while i < parts.len()
            invariant
                i <= parts@.len(),
                texts == range_texts(input@),
                pieces == range_parts(input@),
                !is_any_range(trim(input@)),
                t@ == trim(input@),
                sep@ == "||"@,
                parts@.len() == split_by(t@, sep@).len(),
                forall|k: int| 0 <= k < parts@.len() ==> (#[trigger] parts@[k])@ == split_by(t@, sep@)[k],
                pieces.len() == parts@.len(),
                texts.len() == parts@.len(),
                reqs@.len() == i,
                forall|k: int| 0 <= k < i ==> (#[trigger] reqs@[k])@ == texts[k],
                forall|k: int| 0 <= k < i ==> semver_req_parses(#[trigger] texts[k]),
            decreases parts@.len() - i,
        {
            let part = trim_chars(&parts[i]);
            assert(part@ == pieces[i as int]);
            let part_text = string_of(&part);
            let normalised = normalise_range(part_text.as_str());
            assert(normalised@ == texts[i as int]);
            match parse_req(&normalised) {
                Ok(q) => {
                    reqs.push(q);
                },
                Err(cause) => {
                    return Err(RangeError { range: part_text, cause });
                },
            }
            i = i + 1;
        }
        let q = NpmVersionReq { reqs };
        assert(q@ =~= texts);
        Ok(q)
    }

    /// Whether some requirement of the range matches `version`.
    pub fn matches(&self, version: &SemVer) -> (r: bool)
        ensures
            r == exists|i: int| 0 <= i < self@.len() && semver_req_matches(#[trigger] self@[i], version@),
    {
        let mut i: usize = 0;
        while i < self.reqs.len()
            invariant
                i <= self@.len(),
                self@.len() == self.reqs@.len(),
                forall|k: int| 0 <= k < i ==> !semver_req_matches(#[trigger] self@[k], version@),
            decreases self@.len() - i,
        {
            if req_matches(&self.reqs[i], version) {
                assert(semver_req_matches(self@[i as int], version@));
                return true;
            }
            i = i + 1;
        }
        false
    }
}

} // verus!
