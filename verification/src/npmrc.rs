//! `.npmrc` configuration: the registry, scoped registries, TLS strictness
//! and credentials per registry host, and the `Authorization` header that a
//! request gets.

use vstd::prelude::*;
use base64::Engine;
use vstd::utf8::{encode_utf8, decode_utf8, valid_utf8};
use crate::integrity::{decode_base64, base64_decoded};
use crate::strmap::{StrMap, has_key, lookup, inserted, str_entries};
use crate::text::{
    chars_of, string_of, append_str, append_chars, trim, trim_chars, starts_with, ends_with,
    has_prefix, has_suffix, split_once, split_once_at, rsplit_once, rsplit_once_at, strip_trailing,
    strip_trailing_char, strip_leading_seq, strip_leading_literal, strip_trailing_seq,
    strip_trailing_literal, is_literal, rfind_char, rfind, split_by, split_literal, slice, lines,
    lines_of, find_char, find,
};

verus! {

/// The text of standard, padded base64 for `bytes`
/// (`base64::engine::general_purpose::STANDARD.encode`).
pub uninterp spec fn base64_encoded(bytes: Seq<u8>) -> Seq<char>;

/// `STANDARD.encode` of the `base64` crate.
///
/// Trusted: the result is the name [`base64_encoded`] of `bytes`; inputs so
/// long that the crate's length computation would overflow are left out.
#[verifier::external_body]
fn encode_base64(bytes: &[u8]) -> (r: String)
    requires
        bytes@.len() <= usize::MAX / 2,
    ensures
        r@ == base64_encoded(bytes@),
{
    base64::engine::general_purpose::STANDARD.encode(bytes)
}

/// `String::from_utf8`, which the standard library documents as succeeding
/// exactly on valid UTF-8 and keeping the text the bytes encode.
#[verifier::external_body]
fn utf8_text(bytes: Vec<u8>) -> (r: Option<String>)
    ensures
        r is Some <==> valid_utf8(bytes@),
        r matches Some(s) ==> s@ == decode_utf8(bytes@),
{
    String::from_utf8(bytes).ok()
}

/// Credentials for one registry host.
pub struct RegistryAuth {
    pub token: Option<String>,
    pub legacy_auth: Option<String>,
    pub username: Option<String>,
    pub password: Option<String>,
    pub always_auth: bool,
}

/// The view of credentials: token, legacy `_auth`, user name, base64
/// password, always-auth.
pub type AuthView = (Option<Seq<char>>, Option<Seq<char>>, Option<Seq<char>>, Option<Seq<char>>, bool);

/// The view of an optional string.
pub open spec fn sv(o: Option<String>) -> Option<Seq<char>> {
    match o {
        Some(s) => Some(s@),
        None => None,
    }
}

impl RegistryAuth {
    /// The view of the credentials.
    pub open spec fn view_auth(&self) -> AuthView {
        (sv(self.token), sv(self.legacy_auth), sv(self.username), sv(self.password), self.always_auth)
    }

    /// No credentials.
    pub fn empty() -> (r: RegistryAuth)
        ensures
            r.view_auth() == empty_auth(),
    {
        RegistryAuth { token: None, legacy_auth: None, username: None, password: None, always_auth: false }
    }

    /// The `Authorization` value the credentials give, if any.
    pub fn header_value(&self) -> (r: Option<String>)
        ensures
            sv(r) == header_of(self.view_auth()),
    {
        if let Some(token) = &self.token {
            let mut out = chars_of("Bearer ");
            append_chars(&mut out, &chars_of(token.as_str()));
            return Some(string_of(&out));
        }
        if let Some(basic) = &self.legacy_auth {
            let mut out = chars_of("Basic ");
            append_chars(&mut out, &chars_of(basic.as_str()));
            return Some(string_of(&out));
        }
        if let (Some(user), Some(encoded_pass)) = (&self.username, &self.password) {
            if let Some(decoded) = decode_base64(encoded_pass.as_str()) {
                if let Some(pass) = utf8_text(decoded) {
                    let mut combined = chars_of(user.as_str());
                    append_str(&mut combined, ":");
                    append_chars(&mut combined, &chars_of(pass.as_str()));
                    let text = string_of(&combined);
                    let bytes = text.as_str().as_bytes();
                    if bytes.len() > usize::MAX / 2 {
                        return None;
                    }
                    let encoded = encode_base64(bytes);
                    let mut out = chars_of("Basic ");
                    append_chars(&mut out, &chars_of(encoded.as_str()));
                    return Some(string_of(&out));
                }
            }
        }
        None
    }
}

/// No credentials.
pub open spec fn empty_auth() -> AuthView {
    (None, None, None, None, false)
}

/// The `Authorization` value of credentials `a`: a token as `Bearer`, else
/// the legacy `_auth` as `Basic`, else user name and base64 password, the
/// password decoded and `user:password` encoded again as `Basic`.
pub open spec fn header_of(a: AuthView) -> Option<Seq<char>> {
    if a.0 is Some {
        Some("Bearer "@ + a.0->0)
    } else if a.1 is Some {
        Some("Basic "@ + a.1->0)
    } else if a.2 is Some && a.3 is Some {
        match base64_decoded(encode_utf8(a.3->0)) {
            Some(bytes) => if valid_utf8(bytes) && encode_utf8(a.2->0 + ":"@ + decode_utf8(bytes)).len() <= usize::MAX / 2 {
                Some("Basic "@ + base64_encoded(encode_utf8(a.2->0 + ":"@ + decode_utf8(bytes))))
            } else {
                None
            },
            None => None,
        }
    } else {
        None
    }
}

/// The environment as pairs of name and value.
pub open spec fn env_view(env: Seq<(String, String)>) -> Seq<(Seq<char>, Seq<char>)> {
    env.map_values(|e: (String, String)| (e.0@, e.1@))
}

/// The value of the first variable whose name is encoded by `name`, or
/// nothing (`std::env::var(..).unwrap_or_default()`).
pub open spec fn env_value(env: Seq<(Seq<char>, Seq<char>)>, name: Seq<u8>) -> Seq<char>
    decreases env.len(),
{
    if env.len() == 0 {
        seq![]
    } else if encode_utf8(env[0].0) == name {
        env[0].1
    } else {
        env_value(env.drop_first(), name)
    }
}

/// A byte of a variable name after `$`: ASCII letter, digit or `_`.
pub open spec fn is_name_byte(x: u8) -> bool {
    (48 <= x <= 57) || (65 <= x <= 90) || (97 <= x <= 122) || x == 95
}

/// The number of name bytes at the start of `b`.
pub open spec fn name_len(b: Seq<u8>) -> nat
    decreases b.len(),
{
    if b.len() > 0 && is_name_byte(b[0]) {
        1 + name_len(b.drop_first())
    } else {
        0
    }
}

/// The position of the first `x` in `b`, if any.
pub open spec fn first_byte(b: Seq<u8>, x: u8) -> Option<nat>
    decreases b.len(),
{
    if b.len() == 0 {
        None
    } else if b[0] == x {
        Some(0)
    } else {
        match first_byte(b.drop_first(), x) {
            Some(i) => Some(i + 1),
            None => None,
        }
    }
}

/// `b` with `${NAME}` and `$NAME` replaced by the value of the variable from
/// `env`; every other byte becomes the `char` of the same number.
pub open spec fn expand_env(b: Seq<u8>, env: Seq<(Seq<char>, Seq<char>)>) -> Seq<char>
    decreases b.len(),
{
    if b.len() == 0 {
        seq![]
    } else if b[0] == 36 && b.len() > 1 && b[1] == 123 && first_byte(b.skip(2), 125) is Some {
        let end = first_byte(b.skip(2), 125)->0 as int;
        if 3 + end <= b.len() {
            env_value(env, b.subrange(2, 2 + end)) + expand_env(b.skip(3 + end), env)
        } else {
            seq![]
        }
    } else if b[0] == 36 && b.len() > 1 && b[1] != 123 && (is_name_byte(b[1]) && !(48 <= b[1] <= 57)) {
        let n = name_len(b.skip(1)) as int;
        if 1 + n <= b.len() && n > 0 {
            env_value(env, b.subrange(1, 1 + n)) + expand_env(b.skip(1 + n), env)
        } else {
            seq![]
        }
    } else {
        seq![b[0] as char] + expand_env(b.drop_first(), env)
    }
}

proof fn lemma_first_byte(s: Seq<u8>, x: u8, k: int)
    requires
        0 <= k < s.len(),
        s[k] == x,
        forall|j: int| 0 <= j < k ==> s[j] != x,
    ensures
        first_byte(s, x) == Some(k as nat),
    decreases k,
{
    if k > 0 {
        lemma_first_byte(s.drop_first(), x, k - 1);
    }
}

proof fn lemma_no_byte(s: Seq<u8>, x: u8)
    requires
        forall|j: int| 0 <= j < s.len() ==> s[j] != x,
    ensures
        first_byte(s, x) is None,
    decreases s.len(),
{
    if s.len() > 0 {
        lemma_no_byte(s.drop_first(), x);
    }
}

proof fn lemma_name_len(s: Seq<u8>, k: int)
    requires
        0 <= k <= s.len(),
        forall|j: int| 0 <= j < k ==> is_name_byte(s[j]),
        k == s.len() || !is_name_byte(s[k]),
    ensures
        name_len(s) == k,
    decreases k,
{
    if k > 0 {
        lemma_name_len(s.drop_first(), k - 1);
    }
}

fn name_byte(x: u8) -> (r: bool)
    ensures
        r == is_name_byte(x),
{
    (48 <= x && x <= 57) || (65 <= x && x <= 90) || (97 <= x && x <= 122) || x == 95
}

/// Whether `a` equals `b[start..end]`.
fn bytes_equal_range(a: &[u8], b: &[u8], start: usize, end: usize) -> (r: bool)
    requires
        start <= end <= b@.len(),
    ensures
        r == (a@ == b@.subrange(start as int, end as int)),
{
    if a.len() != end - start {
        return false;
    }
    let mut i: usize = 0;
    while i < a.len()
        invariant
            a@.len() == end - start,
            start <= end <= b@.len(),
            i <= a@.len(),
            forall|j: int| 0 <= j < i ==> a@[j] == b@[start + j],
        decreases a@.len() - i,
    {
        if a[i] != b[start + i] {
            assert(a@[i as int] != b@.subrange(start as int, end as int)[i as int]);
            return false;
        }
        i = i + 1;
    }
    assert(a@ =~= b@.subrange(start as int, end as int));
    true
}

/// The value of the variable encoded by `b[start..end]`, or nothing.
fn lookup_env(env: &Vec<(String, String)>, b: &[u8], start: usize, end: usize) -> (r: Vec<char>)
    requires
        start <= end <= b@.len(),
    ensures
        r@ == env_value(env_view(env@), b@.subrange(start as int, end as int)),
{
    let ghost name = b@.subrange(start as int, end as int);
    let mut i: usize = 0;
    assert(env_view(env@).skip(0) =~= env_view(env@));
    while i < env.len()
        invariant
            i <= env@.len(),
            start <= end <= b@.len(),
            name == b@.subrange(start as int, end as int),
            env_value(env_view(env@), name) == env_value(env_view(env@).skip(i as int), name),
        decreases env@.len() - i,
    {
        let ghost rest = env_view(env@).skip(i as int);
        assert(rest[0] == (env@[i as int].0@, env@[i as int].1@));
        assert(rest.drop_first() =~= env_view(env@).skip(i + 1));
        if bytes_equal_range(env[i].0.as_str().as_bytes(), b, start, end) {
            return chars_of(env[i].1.as_str());
        }
        i = i + 1;
    }
    Vec::new()
}

/// Replaces `${NAME}` and `$NAME` in `value` by the value of the variable
/// from `env` (nothing for an unknown one).
///
/// The text is read byte by byte: a byte that is not part of a reference is
/// kept as the `char` with the same number.
pub fn expand_env_vars(value: &str, env: &Vec<(String, String)>) -> (r: String)
    ensures
        r@ == expand_env(encode_utf8(value@), env_view(env@)),
{
    let b = value.as_bytes();
    let ghost bs = b@;
    let ghost ev = env_view(env@);
    let mut out: Vec<char> = Vec::new();
    let mut pos: usize = 0;
    assert(bs.skip(0) =~= bs);
    while pos < b.len()
        invariant
            bs == b@,
            bs == encode_utf8(value@),
            ev == env_view(env@),
            pos <= bs.len(),
            expand_env(bs, ev) == out@ + expand_env(bs.skip(pos as int), ev),
        decreases bs.len() - pos,
    {
        let ghost rest = bs.skip(pos as int);
        let ghost old_out = out@;
        assert(rest[0] == bs[pos as int]);
        if b[pos] == 36 {
            if pos + 1 < b.len() && b[pos + 1] == 123 {
                let mut k: usize = pos + 2;
                while k < b.len() && b[k] != 125
                    invariant
                        pos + 2 <= k <= bs.len(),
                        bs == b@,
                        forall|j: int| pos + 2 <= j < k ==> bs[j] != 125,
                    decreases bs.len() - k,
                {
                    k = k + 1;
                }
                assert(rest[1] == bs[pos + 1]);
                assert(rest.skip(2) =~= bs.skip(pos + 2));
                if k < b.len() {
                    proof {
                        lemma_first_byte(bs.skip(pos + 2), 125, k - pos - 2);
                        assert(rest.subrange(2, 2 + (k - pos - 2)) =~= bs.subrange(pos + 2, k as int));
                        assert(rest.skip(3 + (k - pos - 2)) =~= bs.skip(k + 1));
                    }
                    let v = lookup_env(env, b, pos + 2, k);
                    append_chars(&mut out, &v);
                    assert(out@ + expand_env(bs.skip(k + 1), ev) =~= old_out + (v@ + expand_env(bs.skip(k + 1), ev)));
                    pos = k + 1;
                    continue;
                }
                proof {
                    lemma_no_byte(bs.skip(pos + 2), 125);
                }
            } else if pos + 1 < b.len() && name_byte(b[pos + 1]) && !(48 <= b[pos + 1] && b[pos + 1] <= 57) {
                let start = pos + 1;
                let mut end = start;
                while end < b.len() && name_byte(b[end])
                    invariant
                        start <= end <= bs.len(),
                        bs == b@,
                        forall|j: int| start <= j < end ==> is_name_byte(bs[j]),
                    decreases bs.len() - end,
                {
                    end = end + 1;
                }
                proof {
                    assert(rest[1] == bs[pos + 1]);
                    assert(rest.skip(1) =~= bs.skip(start as int));
                    lemma_name_len(bs.skip(start as int), end - start);
                    assert(rest.subrange(1, 1 + (end - start)) =~= bs.subrange(start as int, end as int));
                    assert(rest.skip(1 + (end - start)) =~= bs.skip(end as int));
                }
                let v = lookup_env(env, b, start, end);
                append_chars(&mut out, &v);
                assert(out@ + expand_env(bs.skip(end as int), ev) =~= old_out + (v@ + expand_env(bs.skip(end as int), ev)));
                pos = end;
                continue;
            } else {
                proof {
                    if pos + 1 < bs.len() {
                        assert(rest[1] == bs[pos + 1]);
                    }
                }
            }
        }
        out.push(b[pos] as char);
        assert(rest.drop_first() =~= bs.skip(pos + 1));
        assert(out@ + expand_env(bs.skip(pos + 1), ev) =~= old_out + (seq![bs[pos as int] as char] + expand_env(bs.skip(pos + 1), ev)));
        pos = pos + 1;
    }
    assert(out@ + expand_env(bs.skip(pos as int), ev) =~= out@);
    string_of(&out)
}

/// What a configuration holds: the registry, TLS strictness, scoped
/// registries, and credentials by host.
pub struct ConfigView {
    pub registry: Seq<char>,
    pub strict_ssl: bool,
    pub scoped: Seq<(Seq<char>, Seq<char>)>,
    pub auth: Seq<(Seq<char>, AuthView)>,
}

/// The registry used when no configuration names one.
pub open spec fn npm_registry() -> Seq<char> {
    "https://registry.npmjs.org"@
}

/// The configuration before any `.npmrc` is read.
pub open spec fn default_view() -> ConfigView {
    ConfigView { registry: npm_registry(), strict_ssl: true, scoped: seq![], auth: seq![] }
}

/// The configuration of the registry, scoped registries and credentials.
pub struct NpmrcConfig {
    pub default_registry: String,
    pub scoped_registries: StrMap<String>,
    pub auth_registries: StrMap<RegistryAuth>,
    pub strict_ssl: bool,
}

/// Why reading a configuration failed (reading the text never fails).
pub struct ConfigError {
    pub message: String,
}

/// The view of credentials by host.
pub open spec fn auth_view(s: Seq<(Seq<char>, RegistryAuth)>) -> Seq<(Seq<char>, AuthView)> {
    s.map_values(|e: (Seq<char>, RegistryAuth)| (e.0, e.1.view_auth()))
}

/// Credentials `a` with the setting `setting` of an `.npmrc` line set to
/// `value`; an unknown setting changes nothing.
pub open spec fn set_auth(a: AuthView, setting: Seq<char>, value: Seq<char>) -> AuthView {
    if setting == "_authToken"@ {
        (Some(value), a.1, a.2, a.3, a.4)
    } else if setting == "_auth"@ {
        (a.0, Some(value), a.2, a.3, a.4)
    } else if setting == "username"@ {
        (a.0, a.1, Some(value), a.3, a.4)
    } else if setting == "_password"@ {
        (a.0, a.1, a.2, Some(value), a.4)
    } else if setting == "always-auth"@ {
        (a.0, a.1, a.2, a.3, value == "true"@)
    } else {
        a
    }
}

/// The configuration `c` after the `.npmrc` line `line`, with `env` for the
/// variables that values name.
pub open spec fn apply_line(c: ConfigView, line: Seq<char>, env: Seq<(Seq<char>, Seq<char>)>) -> ConfigView {
    let t = trim(line);
    if t.len() == 0 || starts_with(t, "#"@) || starts_with(t, ";"@) {
        c
    } else {
        match split_once(t, '=') {
            None => c,
            Some((k0, v0)) => {
                let key = trim(k0);
                let value = expand_env(encode_utf8(trim(v0)), env);
                if key == "registry"@ {
                    ConfigView { registry: strip_trailing(value, '/'), ..c }
                } else if key == "strict-ssl"@ {
                    ConfigView { strict_ssl: value != "false"@, ..c }
                } else if starts_with(key, "@"@) && ends_with(key, ":registry"@) {
                    ConfigView {
                        scoped: inserted(
                            c.scoped,
                            strip_trailing_seq(key, ":registry"@),
                            strip_trailing(value, '/'),
                        ),
                        ..c
                    }
                } else if starts_with(key, "//"@) {
                    match rsplit_once(strip_leading_seq(key, "//"@), ':') {
                        None => c,
                        Some((host_path, setting)) => {
                            let host = strip_trailing(host_path, '/');
                            let existing = match lookup(c.auth, host) {
                                Some(a) => a,
                                None => empty_auth(),
                            };
                            ConfigView { auth: inserted(c.auth, host, set_auth(existing, setting, value)), ..c }
                        },
                    }
                } else {
                    c
                }
            },
        }
    }
}

/// The configuration `c` after the lines `ls`, in order.
pub open spec fn apply_lines(c: ConfigView, ls: Seq<Seq<char>>, env: Seq<(Seq<char>, Seq<char>)>) -> ConfigView
    decreases ls.len(),
{
    if ls.len() == 0 {
        c
    } else {
        apply_line(apply_lines(c, ls.drop_last(), env), ls.last(), env)
    }
}

/// The configuration that the `.npmrc` text `contents` gives.
pub open spec fn parsed_config(contents: Seq<char>, env: Seq<(Seq<char>, Seq<char>)>) -> ConfigView {
    apply_lines(default_view(), lines(contents), env)
}

/// A later `registry=` line overrides an earlier one: after the lines `ls`
/// and then `registry=v`, the configuration is the one after `ls` with the
/// registry `v`, trimmed, its variables expanded, without trailing `/`; all
/// else as it was.
pub proof fn lemma_later_registry_line_wins(
    c: ConfigView,
    ls: Seq<Seq<char>>,
    v: Seq<char>,
    env: Seq<(Seq<char>, Seq<char>)>,
)
    ensures
        apply_lines(c, ls.push("registry="@ + v), env) == (ConfigView {
            registry: strip_trailing(expand_env(encode_utf8(trim(v)), env), '/'),
            ..apply_lines(c, ls, env)
        }),
{
    reveal_strlit("registry=");
    reveal_strlit("registry");
    reveal_strlit("#");
    reveal_strlit(";");
    let head = "registry="@;
    let line = head + v;
    assert(ls.push(line).drop_last() =~= ls);
    assert(line[0] == 'r');
    assert(!crate::text::is_whitespace(line[0]));
    assert(crate::text::trim_start(line) == line);
    assert(head.last() == '=');
    crate::text::lemma_trim_end_after(head, v);
    let t = head + crate::text::trim_end(v);
    assert(trim(line) == t);
    assert(t[0] == 'r');
    assert(t.take(1)[0] != "#"@[0]);
    assert(t.take(1)[0] != ";"@[0]);
    assert(!starts_with(t, "#"@));
    assert(!starts_with(t, ";"@));
    assert(t[8] == '=');
    assert(forall|j: int| 0 <= j < 8 ==> t[j] != '=');
    assert(find_char(t, '=') == Some(8int));
    assert(t.take(8) =~= "registry"@);
    assert(t.skip(9) =~= crate::text::trim_end(v));
    crate::text::lemma_trim_trim_end(v);
    assert(crate::text::trim_start("registry"@) == "registry"@);
    assert(crate::text::trim_end("registry"@) == "registry"@);
}

/// The same law on the text of an `.npmrc`: after the text `s`, a line
/// `registry=v` (where `v` has no newline) sets the registry to `v`, trimmed,
/// its variables expanded, without trailing `/`, and leaves all else as `s`
/// configures it.
pub proof fn lemma_later_registry_line_wins_in_text(s: Seq<char>, v: Seq<char>, env: Seq<(Seq<char>, Seq<char>)>)
    requires
        forall|j: int| 0 <= j < v.len() ==> v[j] != '\n',
    ensures
        parsed_config(s + "\nregistry="@ + v, env) == (ConfigView {
            registry: strip_trailing(expand_env(encode_utf8(trim(v)), env), '/'),
            ..parsed_config(s, env)
        }),
{
    reveal_strlit("\nregistry=");
    reveal_strlit("registry=");
    reveal_strlit("\n");
    let l = "registry="@ + v;
    let x = s + "\nregistry="@ + v;
    assert(x =~= s + "\n"@ + l);
    assert forall|j: int| 0 <= j < l.len() implies l[j] != '\n' by {
        if j >= 9 {
            assert(l[j] == v[j - 9]);
        }
    }
    crate::text::lemma_split_newline_append(s, l);
    crate::text::lemma_split_nonempty(s, "\n"@);
    let segs = split_by(s, "\n"@);
    let n = segs.len() as int;
    let sx = split_by(x, "\n"@);
    assert(sx == segs + seq![l]);
    assert(sx.last() == l);
    let lx = lines(x);
    assert(lx.len() == n + 1);
    assert(lx[n] == l);
    let a = lx.drop_last();
    assert(lx =~= a.push(l));
    assert forall|i: int| 0 <= i < n implies a[i] == crate::text::strip_cr(#[trigger] segs[i]) by {
        assert(a[i] == lx[i]);
        assert(sx[i] == segs[i]);
    }
    let b = lines(s);
    let d = default_view();
    if segs.last().len() == 0 {
        assert(b.len() == n - 1);
        assert(a.drop_last() =~= b) by {
            assert forall|i: int| 0 <= i < n - 1 implies a.drop_last()[i] == b[i] by {
                assert(a[i] == crate::text::strip_cr(segs[i]));
            }
        }
        assert(a.last() == crate::text::strip_cr(segs[n - 1]));
        assert(a.last().len() == 0);
        assert(trim(a.last()).len() == 0);
        assert(apply_lines(d, a, env) == apply_line(apply_lines(d, a.drop_last(), env), a.last(), env));
    } else {
        assert(b.len() == n);
        assert(a.drop_last() =~= b.drop_last()) by {
            assert forall|i: int| 0 <= i < n - 1 implies a.drop_last()[i] == b.drop_last()[i] by {
                assert(a[i] == crate::text::strip_cr(segs[i]));
            }
        }
        assert(b.last() == segs[n - 1]);
        assert(a.last() == crate::text::strip_cr(segs[n - 1]));
        crate::text::lemma_trim_strip_cr(segs[n - 1]);
        assert(apply_lines(d, a, env) == apply_line(apply_lines(d, a.drop_last(), env), a.last(), env));
        assert(apply_lines(d, b, env) == apply_line(apply_lines(d, b.drop_last(), env), b.last(), env));
    }
    assert(apply_lines(d, a, env) == apply_lines(d, b, env));
    lemma_later_registry_line_wins(d, a, v, env);
}

proof fn lemma_auth_view_inserted(s: Seq<(Seq<char>, RegistryAuth)>, k: Seq<char>, a: RegistryAuth)
    ensures
        auth_view(inserted(s, k, a)) == inserted(auth_view(s), k, a.view_auth()),
        lookup(auth_view(s), k) == match lookup(s, k) {
            Some(x) => Some(x.view_auth()),
            None => None,
        },
{
    crate::strmap::lemma_index_of_key(s, k);
    crate::strmap::lemma_index_of_key(auth_view(s), k);
    let t = auth_view(s);
    if crate::strmap::has_key(s, k) {
        let w = choose|w: int| 0 <= w < s.len() && s[w].0 == k;
        assert(t[w].0 == k);
    }
    if crate::strmap::has_key(t, k) {
        let w = choose|w: int| 0 <= w < t.len() && t[w].0 == k;
        assert(s[w].0 == k);
    }
    if crate::strmap::has_key(s, k) {
        let i = crate::strmap::index_of_key(s, k)->0;
        let j = crate::strmap::index_of_key(t, k)->0;
        assert(t[i].0 == k);
        assert(s[j].0 == k);
        assert(i == j);
        assert(auth_view(s.update(i, (k, a))) =~= t.update(i, (k, a.view_auth())));
    } else {
        assert(auth_view(s.push((k, a))) =~= t.push((k, a.view_auth())));
    }
}

impl NpmrcConfig {
    /// What the configuration holds.
    pub open spec fn view_config(&self) -> ConfigView {
        ConfigView {
            registry: self.default_registry@,
            strict_ssl: self.strict_ssl,
            scoped: str_entries(self.scoped_registries@),
            auth: auth_view(self.auth_registries@),
        }
    }

    /// The configuration before any `.npmrc` is read: the public npm
    /// registry, strict TLS, no scopes and no credentials.
    pub fn new_default() -> (r: NpmrcConfig)
        ensures
            r.view_config() == default_view(),
    {
        let r = NpmrcConfig {
            default_registry: "https://registry.npmjs.org".to_owned(),
            scoped_registries: StrMap::new(),
            auth_registries: StrMap::new(),
            strict_ssl: true,
        };
        assert(r.view_config().scoped =~= Seq::<(Seq<char>, Seq<char>)>::empty());
        assert(r.view_config().auth =~= Seq::<(Seq<char>, AuthView)>::empty());
        r
    }

    fn set_credential(&mut self, host: String, setting: &Vec<char>, value: &Vec<char>)
        ensures
            final(self).view_config() == (ConfigView {
                auth: inserted(
                    old(self).view_config().auth,
                    host@,
                    set_auth(
                        match lookup(old(self).view_config().auth, host@) {
                            Some(a) => a,
                            None => empty_auth(),
                        },
                        setting@,
                        value@,
                    ),
                ),
                ..old(self).view_config()
            }),
    {
        let ghost before = self.auth_registries@;
        proof {
            crate::strmap::lemma_index_of_key(before, host@);
        }
        match self.auth_registries.position(host.as_str()) {
            Some(i) => {
                let _ = self.auth_registries.unique();
                let (k, mut entry) = self.auth_registries.take_at(i);
                let ghost old_entry = entry;
                proof {
                    lemma_auth_view_inserted(before, host@, old_entry);
                    crate::strmap::lemma_index_of_distinct(before, i as int);
                }
                apply_setting(&mut entry, setting, value);
                assert(!crate::strmap::has_key(self.auth_registries@, k@)) by {
                    if crate::strmap::has_key(self.auth_registries@, k@) {
                        let w = choose|w: int| 0 <= w < self.auth_registries@.len() && self.auth_registries@[w].0 == k@;
                        if w < i {
                            assert(before[w].0 == k@);
                        } else {
                            assert(before[w + 1].0 == k@);
                        }
                    }
                }
                self.auth_registries.put_at(i, k, entry);
                proof {
                    assert(self.auth_registries@ =~= before.update(i as int, (host@, entry)));
                    lemma_auth_view_inserted(before, host@, entry);
                }
            },
            None => {
                let mut entry = RegistryAuth::empty();
                proof {
                    lemma_auth_view_inserted(before, host@, entry);
                }
                apply_setting(&mut entry, setting, value);
                proof {
                    lemma_auth_view_inserted(before, host@, entry);
                }
                self.auth_registries.insert(host, entry);
            },
        }
        assert(self.view_config().auth =~= inserted(
            auth_view(before),
            host@,
            set_auth(
                match lookup(auth_view(before), host@) {
                    Some(a) => a,
                    None => empty_auth(),
                },
                setting@,
                value@,
            ),
        ));
    }

}


/// Sets the credential `setting` of `entry` to `value`.
fn apply_setting(entry: &mut RegistryAuth, setting: &Vec<char>, value: &Vec<char>)
    ensures
        final(entry).view_auth() == set_auth(old(entry).view_auth(), setting@, value@),
{
    let v = string_of(value);
    if is_literal(setting, "_authToken") {
        entry.token = Some(v);
    } else if is_literal(setting, "_auth") {
        entry.legacy_auth = Some(v);
    } else if is_literal(setting, "username") {
        entry.username = Some(v);
    } else if is_literal(setting, "_password") {
        entry.password = Some(v);
    } else if is_literal(setting, "always-auth") {
        entry.always_auth = is_literal(value, "true");
    }
}

impl NpmrcConfig {
    /// Applies one `.npmrc` line.
    pub fn apply_line(&mut self, line: &Vec<char>, env: &Vec<(String, String)>)
        ensures
            final(self).view_config() == apply_line(old(self).view_config(), line@, env_view(env@)),
    {
        let t = trim_chars(line);
        if t.len() == 0 || has_prefix(&t, &chars_of("#")) || has_prefix(&t, &chars_of(";")) {
            return;
        }
        let (k0, v0) = match split_once_at(&t, '=') {
            Some(p) => p,
            None => return,
        };
        let key = trim_chars(&k0);
        let vtext = string_of(&trim_chars(&v0));
        let expanded = expand_env_vars(vtext.as_str(), env);
        let value = chars_of(expanded.as_str());
        if is_literal(&key, "registry") {
            self.default_registry = string_of(&strip_trailing_char(&value, '/'));
        } else if is_literal(&key, "strict-ssl") {
            self.strict_ssl = !is_literal(&value, "false");
        } else if has_prefix(&key, &chars_of("@")) && has_suffix(&key, &chars_of(":registry")) {
            let scope = string_of(&strip_trailing_literal(&key, ":registry"));
            let url = string_of(&strip_trailing_char(&value, '/'));
            proof {
                crate::strmap::lemma_str_entries_inserted(self.scoped_registries@, scope@, url);
            }
            self.scoped_registries.insert(scope, url);
        } else if has_prefix(&key, &chars_of("//")) {
            let rest = strip_leading_literal(&key, "//");
            match rsplit_once_at(&rest, ':') {
                Some((host_path, setting)) => {
                    let host = string_of(&strip_trailing_char(&host_path, '/'));
                    self.set_credential(host, &setting, &value);
                },
                None => {},
            }
        }
    }

    /// Reads `.npmrc` text; `env` gives the variables that values name.
    /// Lines that are empty, comments (`#`, `;`) or without `=` are skipped,
    /// as are unknown keys.
    pub fn parse(contents: &str, env: &Vec<(String, String)>) -> (r: Result<NpmrcConfig, ConfigError>)
        ensures
            r matches Ok(c) && c.view_config() == parsed_config(contents@, env_view(env@)),
    {
        let ls = lines_of(contents);
        let mut config = NpmrcConfig::new_default();
        let mut i: usize = 0;
        while i < ls.len()
            invariant
                i <= ls@.len(),
                ls@.len() == lines(contents@).len(),
                forall|k: int| 0 <= k < ls@.len() ==> (#[trigger] ls@[k])@ == lines(contents@)[k],
                config.view_config() == apply_lines(default_view(), lines(contents@).take(i as int), env_view(env@)),
            decreases ls@.len() - i,
        {
            config.apply_line(&ls[i], env);
            proof {
                let t = lines(contents@).take(i + 1);
                assert(t.drop_last() =~= lines(contents@).take(i as int));
                assert(t.last() == ls@[i as int]@);
            }
            i = i + 1;
        }
        assert(lines(contents@).take(lines(contents@).len() as int) =~= lines(contents@));
        Ok(config)
    }
}

/// The entries `s` after inserting the entries `t`, in order
/// (`Extend` of a map).
pub open spec fn insert_all<V>(s: Seq<(Seq<char>, V)>, t: Seq<(Seq<char>, V)>) -> Seq<(Seq<char>, V)>
    decreases t.len(),
{
    if t.len() == 0 {
        s
    } else {
        inserted(insert_all(s, t.drop_last()), t.last().0, t.last().1)
    }
}

/// Configuration `a` with `b` read after it: a registry other than the
/// default one replaces, `strict-ssl=false` sticks, and the scopes and
/// credentials of `b` are added over those of `a`.
pub open spec fn merged(a: ConfigView, b: ConfigView) -> ConfigView {
    ConfigView {
        registry: if b.registry != npm_registry() {
            b.registry
        } else {
            a.registry
        },
        strict_ssl: if !b.strict_ssl {
            false
        } else {
            a.strict_ssl
        },
        scoped: insert_all(a.scoped, b.scoped),
        auth: insert_all(a.auth, b.auth),
    }
}

/// The configuration from the user's `.npmrc` and then the project's, each
/// given as its text where it exists and could be read.
pub open spec fn loaded_config(
    user_rc: Option<Seq<char>>,
    project_rc: Option<Seq<char>>,
    env: Seq<(Seq<char>, Seq<char>)>,
) -> ConfigView {
    let c1 = match user_rc {
        Some(t) => merged(default_view(), parsed_config(t, env)),
        None => default_view(),
    };
    match project_rc {
        Some(t) => merged(c1, parsed_config(t, env)),
        None => c1,
    }
}

/// Whether the credentials stored under `key` apply to `candidate`.
pub open spec fn auth_applies(key: Seq<char>, candidate: Seq<char>) -> bool {
    key == candidate || starts_with(candidate, key + "/"@)
}

/// The header of the first credentials, in order, that apply to
/// `candidate` and give one.
pub open spec fn first_header(auth: Seq<(Seq<char>, AuthView)>, candidate: Seq<char>) -> Option<Seq<char>>
    decreases auth.len(),
{
    if auth.len() == 0 {
        None
    } else if auth_applies(auth[0].0, candidate) && header_of(auth[0].1) is Some {
        header_of(auth[0].1)
    } else {
        first_header(auth.drop_first(), candidate)
    }
}

/// The header for `candidate`, trying it and then each shorter path that
/// ends before one of its `/`.
pub open spec fn header_search(auth: Seq<(Seq<char>, AuthView)>, candidate: Seq<char>) -> Option<Seq<char>>
    decreases candidate.len(),
{
    match first_header(auth, candidate) {
        Some(h) => Some(h),
        None => match rfind_char(candidate, '/') {
            Some(p) => if 0 <= p < candidate.len() {
                header_search(auth, candidate.take(p))
            } else {
                None
            },
            None => None,
        },
    }
}

/// The host and path of `url` that credentials are looked up by: without
/// `https://` or `http://` and without trailing `/`.
pub open spec fn auth_target(url: Seq<char>) -> Seq<char> {
    strip_trailing(strip_leading_seq(strip_leading_seq(url, "https://"@), "http://"@), '/')
}

/// The registry for `package_name`: that of its scope when one is
/// configured, else the default one.
pub open spec fn registry_for(c: ConfigView, package_name: Seq<char>) -> Seq<char> {
    if starts_with(package_name, "@"@) {
        let scope = match split_once(package_name, '/') {
            Some((a, _)) => a,
            None => package_name,
        };
        match lookup(c.scoped, scope) {
            Some(r) => r,
            None => c.registry,
        }
    } else {
        c.registry
    }
}

impl NpmrcConfig {
    /// Reads `other` after this configuration, as [`merged`] says.
    pub fn merge(&mut self, other: NpmrcConfig)
        ensures
            final(self).view_config() == merged(old(self).view_config(), other.view_config()),
    {
        let ghost ov = other.view_config();
        if !is_literal(&chars_of(other.default_registry.as_str()), "https://registry.npmjs.org") {
            self.default_registry = other.default_registry;
        }
        if !other.strict_ssl {
            self.strict_ssl = false;
        }
        let scoped = other.scoped_registries.into_entries();
        let ghost sv0 = str_entries(self.scoped_registries@);
        let mut i: usize = 0;
        while i < scoped.len()
            invariant
                i <= scoped@.len(),
                scoped@.len() == ov.scoped.len(),
                forall|j: int| 0 <= j < scoped@.len() ==> (#[trigger] scoped@[j]).0@ == ov.scoped[j].0 && scoped@[j].1@ == ov.scoped[j].1,
                str_entries(self.scoped_registries@) == insert_all(sv0, ov.scoped.take(i as int)),
                self.default_registry@ == merged(old(self).view_config(), ov).registry,
                self.strict_ssl == merged(old(self).view_config(), ov).strict_ssl,
                self.auth_registries == old(self).auth_registries,
                sv0 == old(self).view_config().scoped,
            decreases scoped@.len() - i,
        {
            let k = scoped[i].0.clone();
            let v = scoped[i].1.clone();
            proof {
                crate::strmap::lemma_str_entries_inserted(self.scoped_registries@, k@, v);
                let t = ov.scoped.take(i + 1);
                assert(t.drop_last() =~= ov.scoped.take(i as int));
            }
            self.scoped_registries.insert(k, v);
            i = i + 1;
        }
        assert(ov.scoped.take(ov.scoped.len() as int) =~= ov.scoped);
        let auths = other.auth_registries.into_entries();
        let ghost av0 = auth_view(self.auth_registries@);
        let mut j: usize = 0;
        while j < auths.len()
            invariant
                j <= auths@.len(),
                auths@.len() == ov.auth.len(),
                forall|x: int| 0 <= x < auths@.len() ==> (#[trigger] auths@[x]).0@ == ov.auth[x].0 && auths@[x].1.view_auth() == ov.auth[x].1,
                auth_view(self.auth_registries@) == insert_all(av0, ov.auth.take(j as int)),
                str_entries(self.scoped_registries@) == insert_all(old(self).view_config().scoped, ov.scoped),
                self.default_registry@ == merged(old(self).view_config(), ov).registry,
                self.strict_ssl == merged(old(self).view_config(), ov).strict_ssl,
                av0 == old(self).view_config().auth,
            decreases auths@.len() - j,
        {
            let k = auths[j].0.clone();
            let a = copy_auth(&auths[j].1);
            proof {
                lemma_auth_view_inserted(self.auth_registries@, k@, a);
                let t = ov.auth.take(j + 1);
                assert(t.drop_last() =~= ov.auth.take(j as int));
            }
            self.auth_registries.insert(k, a);
            j = j + 1;
        }
        assert(ov.auth.take(ov.auth.len() as int) =~= ov.auth);
    }

    /// The configuration from the user's `.npmrc` and then the project's,
    /// each given as its text where the file exists and could be read.
    pub fn load(user_rc: Option<String>, project_rc: Option<String>, env: &Vec<(String, String)>) -> (r: NpmrcConfig)
        ensures
            r.view_config() == loaded_config(sv(user_rc), sv(project_rc), env_view(env@)),
    {
        let mut config = NpmrcConfig::new_default();
        if let Some(text) = user_rc {
            if let Ok(user_config) = NpmrcConfig::parse(text.as_str(), env) {
                config.merge(user_config);
            }
        }
        if let Some(text) = project_rc {
            if let Ok(project_config) = NpmrcConfig::parse(text.as_str(), env) {
                config.merge(project_config);
            }
        }
        config
    }

    /// The `Authorization` header for a request to `url`: the host and path
    /// of the URL and then each shorter path are tried, and the first
    /// credentials stored for one of them, or for a path that it lies under,
    /// that give a header are used.
    pub fn auth_header_for_url(&self, url: &str) -> (r: Option<(String, String)>)
        ensures
            match r {
                Some((name, value)) => name@ == "Authorization"@ && header_search(
                    self.view_config().auth,
                    auth_target(url@),
                ) == Some(value@),
                None => header_search(self.view_config().auth, auth_target(url@)) is None,
            },
    {
        let u = chars_of(url);
        let s1 = strip_leading_literal(&u, "https://");
        let s2 = strip_leading_literal(&s1, "http://");
        let mut candidate = strip_trailing_char(&s2, '/');
        let ghost auth = self.view_config().auth;
        loop
            invariant
                auth == self.view_config().auth,
                header_search(auth, auth_target(url@)) == header_search(auth, candidate@),
            decreases candidate@.len(),
        {
            let mut i: usize = 0;
            assert(auth.skip(0) =~= auth);
            while i < self.auth_registries.len()
                invariant
                    i <= auth.len(),
                    auth == self.view_config().auth,
                    auth.len() == self.auth_registries@.len(),
                    first_header(auth, candidate@) == first_header(auth.skip(i as int), candidate@),
                    header_search(auth, auth_target(url@)) == header_search(auth, candidate@),
                decreases auth.len() - i,
            {
                let ghost rest = auth.skip(i as int);
                assert(rest[0] == auth[i as int]);
                assert(rest.drop_first() =~= auth.skip(i + 1));
                let key = chars_of(self.auth_registries.key_at(i).as_str());
                let mut key_slash = chars_of(self.auth_registries.key_at(i).as_str());
                append_str(&mut key_slash, "/");
                if crate::text::same_chars(&key, &candidate) || has_prefix(&candidate, &key_slash) {
                    if let Some(value) = self.auth_registries.value_at(i).header_value() {
                        proof {
                            assert(auth[i as int] == (self.auth_registries@[i as int].0, self.auth_registries@[i as int].1.view_auth()));
                            assert(auth_applies(rest[0].0, candidate@));
                            assert(header_of(rest[0].1) == Some(value@));
                            assert(first_header(rest, candidate@) == Some(value@));
                        }
                        return Some(("Authorization".to_owned(), value));
                    }
                }
                i = i + 1;
            }
            assert(auth.skip(auth.len() as int).len() == 0);
            let ghost old_c = candidate@;
            match rfind(&candidate, '/') {
                Some(p) => {
                    candidate = slice(&candidate, 0, p);
                    assert(candidate@ =~= old_c.take(p as int));
                },
                None => return None,
            }
        }
    }
}

/// A copy of credentials.
fn copy_auth(a: &RegistryAuth) -> (r: RegistryAuth)
    ensures
        r.view_auth() == a.view_auth(),
{
    RegistryAuth {
        token: copy_opt(&a.token),
        legacy_auth: copy_opt(&a.legacy_auth),
        username: copy_opt(&a.username),
        password: copy_opt(&a.password),
        always_auth: a.always_auth,
    }
}

fn copy_opt(o: &Option<String>) -> (r: Option<String>)
    ensures
        sv(r) == sv(*o),
{
    match o {
        Some(s) => Some(s.clone()),
        None => None,
    }
}

impl NpmrcConfig {
    /// The registry for `package_name`, as [`registry_for`] says.
    pub fn registry_url_for(&self, package_name: &str) -> (r: String)
        ensures
            r@ == registry_for(self.view_config(), package_name@),
    {
        let name = chars_of(package_name);
        if has_prefix(&name, &chars_of("@")) {
            let scope = match split_once_at(&name, '/') {
                Some((a, _)) => a,
                None => slice(&name, 0, name.len()),
            };
            assert(scope@ == match split_once(package_name@, '/') {
                Some((a, _)) => a,
                None => package_name@,
            });
            let scope_text = string_of(&scope);
            proof {
                crate::strmap::lemma_index_of_key(self.scoped_registries@, scope@);
                crate::strmap::lemma_str_entries_index(self.scoped_registries@, scope@);
            }
            match self.scoped_registries.get(scope_text.as_str()) {
                Some(url) => return url.clone(),
                None => {},
            }
        }
        self.default_registry.clone()
    }

    /// The URL of the registry document of `package_name`: its registry, `/`,
    /// and the name.
    pub fn metadata_url(&self, package_name: &str) -> (r: String)
        ensures
            r@ == registry_for(self.view_config(), package_name@) + "/"@ + package_name@,
    {
        let base = self.registry_url_for(package_name);
        let mut out = chars_of(base.as_str());
        append_str(&mut out, "/");
        append_chars(&mut out, &chars_of(package_name));
        string_of(&out)
    }
}


/// Merging configuration `b` over `a`: a registry of `b` other than the
/// public default takes the place of `a`'s, while the default leaves `a`'s
/// registry as it was; TLS is strict only where both are.
pub proof fn law_merge_registry(a: ConfigView, b: ConfigView)
    ensures
        b.registry == npm_registry() ==> merged(a, b).registry == a.registry,
        b.registry != npm_registry() ==> merged(a, b).registry == b.registry,
        merged(a, b).strict_ssl == (a.strict_ssl && b.strict_ssl),
{
}

/// A line of `.npmrc` that does not set `registry` leaves the registry as it
/// was.
proof fn lemma_line_keeps_registry(c: ConfigView, line: Seq<char>, env: Seq<(Seq<char>, Seq<char>)>)
    requires
        !sets_registry(line),
    ensures
        apply_line(c, line, env).registry == c.registry,
{
}

/// Whether `line` of an `.npmrc` is a `registry=` setting.
pub open spec fn sets_registry(line: Seq<char>) -> bool {
    split_once(trim(line), '=') matches Some((k, _)) && trim(k) == "registry"@
}

/// Lines of which none sets `registry` leave the registry as it was.
proof fn lemma_lines_keep_registry(c: ConfigView, ls: Seq<Seq<char>>, env: Seq<(Seq<char>, Seq<char>)>)
    requires
        forall|i: int| 0 <= i < ls.len() ==> !sets_registry(#[trigger] ls[i]),
    ensures
        apply_lines(c, ls, env).registry == c.registry,
    decreases ls.len(),
{
    if ls.len() > 0 {
        lemma_lines_keep_registry(c, ls.drop_last(), env);
        lemma_line_keeps_registry(apply_lines(c, ls.drop_last(), env), ls.last(), env);
    }
}

/// Loading the user's `.npmrc` and then a project's that has no `registry=`
/// line keeps the registry the user's configures (or the default where there
/// is no user's file).
pub proof fn law_project_rc_keeps_user_registry(
    user_rc: Option<Seq<char>>,
    project_rc: Seq<char>,
    env: Seq<(Seq<char>, Seq<char>)>,
)
    requires
        forall|i: int| 0 <= i < lines(project_rc).len() ==> !sets_registry(#[trigger] lines(project_rc)[i]),
    ensures
        loaded_config(user_rc, Some(project_rc), env).registry == loaded_config(user_rc, None, env).registry,
{
    lemma_lines_keep_registry(default_view(), lines(project_rc), env);
}


/// How a line `//host/:_auth=v` is cut: past the trimming and the first `=`,
/// the key is `//host/:_auth` and the value `v` with its end trimmed.
proof fn lemma_auth_line_split(host: Seq<char>, v: Seq<char>)
    requires
        host.len() > 0,
        forall|j: int| 0 <= j < host.len() ==> host[j] != '=',
    ensures
        ({
            let t = trim("//"@ + host + "/:_auth="@ + v);
            &&& !(t.len() == 0 || starts_with(t, "#"@) || starts_with(t, ";"@))
            &&& split_once(t, '=') == Some(("//"@ + host + "/:_auth"@, crate::text::trim_end(v)))
        }),
{
    reveal_strlit("//");
    reveal_strlit("/:_auth=");
    reveal_strlit("/:_auth");
    reveal_strlit("#");
    reveal_strlit(";");
    let h = host.len() as int;
    let head = "//"@ + host + "/:_auth="@;
    let line = head + v;
    assert(head.len() == h + 10);
    assert(line[0] == '/');
    assert(crate::text::trim_start(line) == line);
    assert(head.last() == '=');
    crate::text::lemma_trim_end_after(head, v);
    let t = head + crate::text::trim_end(v);
    assert(trim(line) == t);
    assert(t[0] == '/');
    assert(t.take(1)[0] != "#"@[0]);
    assert(t.take(1)[0] != ";"@[0]);
    let idx = h + 9;
    assert(t[idx] == '=');
    assert forall|j: int| 0 <= j < idx implies t[j] != '=' by {
        if 2 <= j < h + 2 {
            assert(t[j] == host[j - 2]);
        }
    }
    assert(find_char(t, '=') == Some(idx));
    assert(t.take(idx) =~= "//"@ + host + "/:_auth"@);
    assert(t.skip(idx + 1) =~= crate::text::trim_end(v));
}

/// The key `//host/:_auth` names the credential `_auth` of `host`.
proof fn lemma_auth_key(host: Seq<char>)
    requires
        host.len() > 0,
        host[0] != '/',
        host.last() != '/',
    ensures
        ({
            let k0 = "//"@ + host + "/:_auth"@;
            &&& trim(k0) == k0
            &&& k0 != "registry"@
            &&& k0 != "strict-ssl"@
            &&& !starts_with(k0, "@"@)
            &&& starts_with(k0, "//"@)
            &&& rsplit_once(strip_leading_seq(k0, "//"@), ':') == Some((host + "/"@, "_auth"@))
            &&& strip_trailing(host + "/"@, '/') == host
        }),
{
    reveal_strlit("//");
    reveal_strlit("/:_auth");
    reveal_strlit("_auth");
    reveal_strlit("registry");
    reveal_strlit("strict-ssl");
    reveal_strlit("@");
    reveal_strlit("/");
    let h = host.len() as int;
    let k0 = "//"@ + host + "/:_auth"@;
    assert(k0[0] == '/');
    assert(crate::text::trim_start(k0) == k0);
    assert(k0.last() == 'h');
    assert(crate::text::trim_end(k0) == k0);
    assert(k0[0] != "registry"@[0]);
    assert(k0[0] != "strict-ssl"@[0]);
    assert(k0.take(1)[0] != "@"@[0]);
    assert(k0.take(2) =~= "//"@);
    let x = host + "/:_auth"@;
    assert(k0.skip(2) =~= x);
    assert(x.take(2)[0] == host[0]);
    assert(!starts_with(x, "//"@));
    assert(strip_leading_seq(x, "//"@) == x);
    assert(strip_leading_seq(k0, "//"@) == x);
    assert(x[h + 1] == ':');
    assert(forall|j: int| h + 1 < j < x.len() ==> x[j] != ':');
    assert(rfind_char(x, ':') == Some(h + 1));
    assert(x.take(h + 1) =~= host + "/"@);
    assert(x.skip(h + 2) =~= "_auth"@);
    assert((host + "/"@).last() == '/');
    assert((host + "/"@).drop_last() =~= host);
    assert(strip_trailing(host, '/') == host);
}

/// A line `//host/:_auth=v` gives `host` the legacy credentials `v` (trimmed,
/// its variables expanded) and keeps every other credential it had, its
/// token among them, and every other setting; so a host with no token then
/// sends `Basic` and `v`.
pub proof fn law_auth_line_sets_legacy_auth(
    c: ConfigView,
    host: Seq<char>,
    v: Seq<char>,
    env: Seq<(Seq<char>, Seq<char>)>,
)
    requires
        host.len() > 0,
        host[0] != '/',
        host.last() != '/',
        forall|j: int| 0 <= j < host.len() ==> host[j] != '=',
    ensures
        ({
            let before = match lookup(c.auth, host) {
                Some(a) => a,
                None => empty_auth(),
            };
            let value = expand_env(encode_utf8(trim(v)), env);
            let after = apply_line(c, "//"@ + host + "/:_auth="@ + v, env);
            &&& lookup(after.auth, host) == Some((before.0, Some(value), before.2, before.3, before.4))
            &&& after.registry == c.registry
            &&& after.strict_ssl == c.strict_ssl
            &&& after.scoped == c.scoped
            &&& before.0 is None ==> header_of(lookup(after.auth, host)->0) == Some("Basic "@ + value)
        }),
{
    reveal_strlit("_auth");
    reveal_strlit("_authToken");
    lemma_auth_line_split(host, v);
    lemma_auth_key(host);
    crate::text::lemma_trim_trim_end(v);
    assert("_auth"@.len() != "_authToken"@.len());
    let before = match lookup(c.auth, host) {
        Some(a) => a,
        None => empty_auth(),
    };
    let value = expand_env(encode_utf8(trim(v)), env);
    let na = set_auth(before, "_auth"@, value);
    assert(na == (before.0, Some(value), before.2, before.3, before.4));
    crate::strmap::lemma_inserted_lookup(c.auth, host, na, host);
}


/// Credentials send their token as `Bearer` where they have one; otherwise
/// the legacy `_auth` value as `Basic`.
pub proof fn law_header_prefers_token(a: AuthView)
    ensures
        a.0 matches Some(t) ==> header_of(a) == Some("Bearer "@ + t),
        a.0 is None && a.1 is Some ==> header_of(a) == Some("Basic "@ + a.1->0),
{
}

/// After inserting the entries `t` (without repeated keys) over `s`, a key
/// of `t` has its value in `t`, and any other key its value in `s`.
proof fn lemma_insert_all_lookup<V>(s: Seq<(Seq<char>, V)>, t: Seq<(Seq<char>, V)>, k: Seq<char>)
    requires
        crate::strmap::distinct_keys(t),
    ensures
        lookup(insert_all(s, t), k) == if has_key(t, k) {
            lookup(t, k)
        } else {
            lookup(s, k)
        },
    decreases t.len(),
{
    if t.len() > 0 {
        let t0 = t.drop_last();
        assert(crate::strmap::distinct_keys(t0)) by {
            assert forall|i: int, j: int| 0 <= i < j < t0.len() implies t0[i].0 != t0[j].0 by {
                assert(t0[i] == t[i] && t0[j] == t[j]);
            }
        }
        lemma_insert_all_lookup(s, t0, k);
        crate::strmap::lemma_inserted_lookup(insert_all(s, t0), t.last().0, t.last().1, k);
        let n = t.len() - 1;
        crate::strmap::lemma_index_of_distinct(t, n);
        crate::strmap::lemma_index_of_key(t, k);
        crate::strmap::lemma_index_of_key(t0, k);
        if has_key(t0, k) {
            let w = choose|w: int| 0 <= w < t0.len() && t0[w].0 == k;
            assert(t[w].0 == k);
            crate::strmap::lemma_index_of_distinct(t, w);
            crate::strmap::lemma_index_of_distinct(t0, w);
            assert(t0[w] == t[w]);
        }
        if has_key(t, k) && k != t.last().0 {
            let w = choose|w: int| 0 <= w < t.len() && t[w].0 == k;
            assert(w != n);
            assert(t0[w].0 == k);
        }
    }
}

/// Merging `b` over `a`: a scope or a host that `b` configures takes `b`'s
/// registry or credentials; any other keeps `a`'s.
pub proof fn law_merge_scopes_and_credentials(a: ConfigView, b: ConfigView, k: Seq<char>)
    requires
        crate::strmap::distinct_keys(b.scoped),
        crate::strmap::distinct_keys(b.auth),
    ensures
        lookup(merged(a, b).scoped, k) == if has_key(b.scoped, k) {
            lookup(b.scoped, k)
        } else {
            lookup(a.scoped, k)
        },
        lookup(merged(a, b).auth, k) == if has_key(b.auth, k) {
            lookup(b.auth, k)
        } else {
            lookup(a.auth, k)
        },
{
    lemma_insert_all_lookup(a.scoped, b.scoped, k);
    lemma_insert_all_lookup(a.auth, b.auth, k);
}

} // verus!
