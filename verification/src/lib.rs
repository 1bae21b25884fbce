//! Parser for version-control repository URLs.
//!
//! A URL is accepted in one of two shapes: SSH-style (`user@server:path`) and
//! HTTP(S)-style (`[http(s)://][www.]server/path`). The parser trims
//! whitespace, drops a trailing `.git`, and splits the rest at the first
//! occurrence of the relevant delimiters. All results are borrowed slices of
//! the input.

use vstd::prelude::*;

verus! {

/// Index of the first occurrence of `c` in `s`, or `s.len()` if `c` does not
/// occur.
pub open spec fn find_char(s: Seq<char>, c: char) -> int
    decreases s.len(),
{
    if s.len() == 0 {
        0
    } else if s[0] == c {
        0
    } else {
        1 + find_char(s.skip(1), c)
    }
}

/// `s` contains the character `c`.
pub open spec fn has_char(s: Seq<char>, c: char) -> bool {
    exists|i: int| 0 <= i < s.len() && s[i] == c
}

/// `find_char` points at the first occurrence of `c`, and equals `s.len()`
/// exactly when `c` is absent.
pub proof fn lemma_find_char(s: Seq<char>, c: char)
    ensures
        0 <= find_char(s, c) <= s.len(),
        find_char(s, c) < s.len() ==> s[find_char(s, c)] == c,
        forall|j: int| 0 <= j < find_char(s, c) ==> s[j] != c,
        find_char(s, c) == s.len() ==> !has_char(s, c),
        has_char(s, c) ==> find_char(s, c) < s.len(),
    decreases s.len(),
{
    if s.len() == 0 {
    } else if s[0] == c {
    } else {
        lemma_find_char(s.skip(1), c);
        assert forall|j: int| 0 <= j < find_char(s, c) implies s[j] != c by {
            if j > 0 {
                assert(s.skip(1)[j - 1] == s[j]);
            }
        }
        if find_char(s, c) == s.len() {
            assert forall|j: int| 0 <= j < s.len() implies s[j] != c by {
                if j > 0 {
                    assert(s.skip(1)[j - 1] == s[j]);
                }
            }
        }
    }
}

/// Splits `url` at the first occurrence of `delimiter`: the text before it
/// and the text after it, the delimiter itself in neither part. Returns
/// `None` when the delimiter is absent.
pub fn split_once<'a>(url: &'a str, delimiter: char) -> (r: Option<(&'a str, &'a str)>)
    ensures
        ({
            let s = url@;
            let i = find_char(s, delimiter);
            if i < s.len() {
                r matches Some(p) && p.0@ == s.subrange(0, i) && p.1@ == s.subrange(
                    i + 1,
                    s.len() as int,
                )
            } else {
                r is None
            }
        }),
{
    let n = url.unicode_len();
    let mut i: usize = 0;
    while i < n
        invariant
            i <= n,
            n == url@.len(),
            forall|j: int| 0 <= j < i ==> url@[j] != delimiter,
        decreases n - i,
    {
        if url.get_char(i) == delimiter {
            proof {
                lemma_find_char(url@, delimiter);
            }
            let before = url.substring_char(0, i);
            let after = url.substring_char(i + 1, n);
            return Some((before, after));
        }
        i = i + 1;
    }
    proof {
        lemma_find_char(url@, delimiter);
    }
    None
}

/// `c` has the Unicode `White_Space` property, the set that `str::trim`
/// removes at the ends of a string.
pub open spec fn is_space(c: char) -> bool {
    let u = c as u32;
    (9 <= u && u <= 13) || u == 32 || u == 0x85 || u == 0xa0 || u == 0x1680 || (0x2000 <= u
        && u <= 0x200a) || u == 0x2028 || u == 0x2029 || u == 0x202f || u == 0x205f || u == 0x3000
}

fn is_space_char(c: char) -> (r: bool)
    ensures
        r == is_space(c),
{
    let u: u32 = c as u32;
    (9 <= u && u <= 13) || u == 32 || u == 0x85 || u == 0xa0 || u == 0x1680 || (0x2000 <= u
        && u <= 0x200a) || u == 0x2028 || u == 0x2029 || u == 0x202f || u == 0x205f || u == 0x3000
}

/// `s` without its leading whitespace.
pub open spec fn trim_start_spec(s: Seq<char>) -> Seq<char>
    decreases s.len(),
{
    if s.len() > 0 && is_space(s[0]) {
        trim_start_spec(s.skip(1))
    } else {
        s
    }
}

/// `s` without its trailing whitespace.
pub open spec fn trim_end_spec(s: Seq<char>) -> Seq<char>
    decreases s.len(),
{
    if s.len() > 0 && is_space(s[s.len() - 1]) {
        trim_end_spec(s.take(s.len() - 1))
    } else {
        s
    }
}

/// `s` without leading and trailing whitespace.
pub open spec fn trim_spec(s: Seq<char>) -> Seq<char> {
    trim_end_spec(trim_start_spec(s))
}

proof fn lemma_trim_start(s: Seq<char>, i: int)
    requires
        0 <= i <= s.len(),
        forall|k: int| 0 <= k < i ==> is_space(s[k]),
        i < s.len() ==> !is_space(s[i]),
    ensures
        trim_start_spec(s) == s.skip(i),
    decreases i,
{
    if i == 0 {
        assert(s.skip(0) =~= s);
    } else {
        lemma_trim_start(s.skip(1), i - 1);
        assert(s.skip(1).skip(i - 1) =~= s.skip(i));
    }
}

proof fn lemma_trim_end(s: Seq<char>, j: int)
    requires
        0 <= j <= s.len(),
        forall|k: int| j <= k < s.len() ==> is_space(s[k]),
        j > 0 ==> !is_space(s[j - 1]),
    ensures
        trim_end_spec(s) == s.take(j),
    decreases s.len() - j,
{
    if j == s.len() {
        assert(s.take(j) =~= s);
    } else {
        lemma_trim_end(s.take(s.len() - 1), j);
    }
}

/// `url` with leading and trailing whitespace removed.
fn trim_str<'a>(url: &'a str) -> (r: &'a str)
    ensures
        r@ == trim_spec(url@),
{
    let n = url.unicode_len();
    let mut i: usize = 0;
    while i < n && is_space_char(url.get_char(i))
        invariant
            i <= n,
            n == url@.len(),
            forall|k: int| 0 <= k < i ==> is_space(url@[k]),
        decreases n - i,
    {
        i = i + 1;
    }
    let mut j: usize = n;
    while j > i && is_space_char(url.get_char(j - 1))
        invariant
            i <= j <= n,
            n == url@.len(),
            forall|k: int| j <= k < n ==> is_space(url@[k]),
        decreases j,
    {
        j = j - 1;
    }
    proof {
        lemma_trim_start(url@, i as int);
        let t = url@.skip(i as int);
        lemma_trim_end(t, j - i);
        assert(t.take(j - i) =~= url@.subrange(i as int, j as int));
    }
    url.substring_char(i, j)
}

/// `p` is a prefix of `s`.
pub open spec fn has_prefix(s: Seq<char>, p: Seq<char>) -> bool {
    p.len() <= s.len() && s.subrange(0, p.len() as int) == p
}

/// `p` is a suffix of `s`.
pub open spec fn has_suffix(s: Seq<char>, p: Seq<char>) -> bool {
    p.len() <= s.len() && s.subrange(s.len() - p.len(), s.len() as int) == p
}

/// The characters of `http://`.
pub open spec fn http_prefix() -> Seq<char> {
    seq!['h', 't', 't', 'p', ':', '/', '/']
}

/// The characters of `https://`.
pub open spec fn https_prefix() -> Seq<char> {
    seq!['h', 't', 't', 'p', 's', ':', '/', '/']
}

/// The characters of `www.`.
pub open spec fn www_prefix() -> Seq<char> {
    seq!['w', 'w', 'w', '.']
}

/// The characters of `.git`.
pub open spec fn git_suffix() -> Seq<char> {
    seq!['.', 'g', 'i', 't']
}

/// `s` with one trailing `.git` removed, if it ends in one.
pub open spec fn strip_git(s: Seq<char>) -> Seq<char> {
    if has_suffix(s, git_suffix()) {
        s.take(s.len() - 4)
    } else {
        s
    }
}

/// The remainder of `url` after the prefix `p`, or `None` if `url` does not
/// start with `p`.
fn strip_prefix_if<'a>(url: &'a str, p: &str) -> (r: Option<&'a str>)
    ensures
        has_prefix(url@, p@) ==> (r matches Some(t) && t@ == url@.skip(p@.len() as int)),
        !has_prefix(url@, p@) ==> r is None,
{
    let pn = p.unicode_len();
    let n = url.unicode_len();
    if pn > n {
        return None;
    }
    let mut i: usize = 0;
    while i < pn
        invariant
            i <= pn <= n,
            pn == p@.len(),
            n == url@.len(),
            forall|k: int| 0 <= k < i ==> url@[k] == p@[k],
        decreases pn - i,
    {
        if url.get_char(i) != p.get_char(i) {
            proof {
                assert(url@.subrange(0, pn as int)[i as int] != p@[i as int]);
            }
            return None;
        }
        i = i + 1;
    }
    proof {
        assert(url@.subrange(0, pn as int) =~= p@);
    }
    Some(url.substring_char(pn, n))
}

/// `url` with one trailing `.git` removed, if it ends in one.
fn strip_git_suffix<'a>(url: &'a str) -> (r: &'a str)
    ensures
        r@ == strip_git(url@),
{
    let n = url.unicode_len();
    if n >= 4 && url.get_char(n - 4) == '.' && url.get_char(n - 3) == 'g' && url.get_char(n - 2)
        == 'i' && url.get_char(n - 1) == 't' {
        proof {
            assert(url@.subrange(n - 4, n as int) =~= git_suffix());
        }
        url.substring_char(0, n - 4)
    } else {
        proof {
            if has_suffix(url@, git_suffix()) {
                assert(url@[n - 4] == git_suffix()[0]);
                assert(url@[n - 3] == git_suffix()[1]);
                assert(url@[n - 2] == git_suffix()[2]);
                assert(url@[n - 1] == git_suffix()[3]);
            }
        }
        url
    }
}

/// A parsed repository URL. Both variants borrow from the input string.
pub enum RepoUrl<'a> {
    Ssh { user: &'a str, server: &'a str, path: &'a str },
    Https { server: &'a str, path: &'a str },
}

/// The mathematical value of a [`RepoUrl`]: its fields as character
/// sequences.
#[verifier::ext_equal]
pub enum RepoUrlModel {
    Ssh { user: Seq<char>, server: Seq<char>, path: Seq<char> },
    Https { server: Seq<char>, path: Seq<char> },
}

impl<'a> View for RepoUrl<'a> {
    type V = RepoUrlModel;

    open spec fn view(&self) -> RepoUrlModel {
        match self {
            RepoUrl::Ssh { user, server, path } => RepoUrlModel::Ssh {
                user: user@,
                server: server@,
                path: path@,
            },
            RepoUrl::Https { server, path } => RepoUrlModel::Https {
                server: server@,
                path: path@,
            },
        }
    }
}

/// Why an input failed to parse: the delimiter that was expected but absent
/// (`'/'`, `':'` or `'@'`).
#[derive(Clone, Copy, Debug, PartialEq, Eq)]
pub enum ParseError {
    MissingDelimiter(char),
}

/// The input after the steps that precede the branch on the URL shape:
/// whitespace trimmed, then one trailing `.git` removed.
pub open spec fn cleaned(input: Seq<char>) -> Seq<char> {
    strip_git(trim_spec(input))
}

/// For a cleaned input that starts with `http://` or `https://`: the
/// remainder after that prefix and after an optional `www.`.
pub open spec fn https_rest(s: Seq<char>) -> Seq<char> {
    let r = if has_prefix(s, http_prefix()) {
        s.skip(http_prefix().len() as int)
    } else {
        s.skip(https_prefix().len() as int)
    };
    if has_prefix(r, www_prefix()) {
        r.skip(www_prefix().len() as int)
    } else {
        r
    }
}

/// What parsing an HTTP(S)-style remainder yields: split at the first `/`,
/// or the error `MissingDelimiter('/')`.
pub open spec fn https_outcome(r: Seq<char>) -> Result<RepoUrlModel, char> {
    let i = find_char(r, '/');
    if i < r.len() {
        Ok(
            RepoUrlModel::Https {
                server: r.subrange(0, i),
                path: r.subrange(i + 1, r.len() as int),
            },
        )
    } else {
        Err('/')
    }
}

/// What parsing an SSH-style input yields: split at the first `:`, the part
/// before it split again at the first `@`; the errors `MissingDelimiter(':')`
/// and `MissingDelimiter('@')` when a delimiter is absent.
pub open spec fn ssh_outcome(s: Seq<char>) -> Result<RepoUrlModel, char> {
    let i = find_char(s, ':');
    if i < s.len() {
        let before = s.subrange(0, i);
        let j = find_char(before, '@');
        if j < before.len() {
            Ok(
                RepoUrlModel::Ssh {
                    user: before.subrange(0, j),
                    server: before.subrange(j + 1, before.len() as int),
                    path: s.subrange(i + 1, s.len() as int),
                },
            )
        } else {
            Err('@')
        }
    } else {
        Err(':')
    }
}

/// The full parse, as a mathematical function of the input characters: the
/// model of the result that [`parse`] returns, or the delimiter of the
/// `MissingDelimiter` error it reports.
pub open spec fn parse_spec(input: Seq<char>) -> Result<RepoUrlModel, char> {
    let s = cleaned(input);
    if has_prefix(s, http_prefix()) || has_prefix(s, https_prefix()) {
        https_outcome(https_rest(s))
    } else {
        ssh_outcome(s)
    }
}

/// Parses a repository URL into its SSH-style or HTTP(S)-style parts, exactly
/// as [`parse_spec`] describes.
pub fn parse<'a>(url: &'a str) -> (r: Result<RepoUrl<'a>, ParseError>)
    ensures
        match parse_spec(url@) {
            Ok(m) => r matches Ok(u) && u@ == m,
            Err(c) => r matches Err(e) && e == ParseError::MissingDelimiter(c),
        },
{
    let t = trim_str(url);
    let t = strip_git_suffix(t);
    proof {
        reveal_strlit("http://");
        reveal_strlit("https://");
        reveal_strlit("www.");
        assert("http://"@ =~= http_prefix());
        assert("https://"@ =~= https_prefix());
        assert("www."@ =~= www_prefix());
    }
    let stripped = match strip_prefix_if(t, "http://") {
        Some(rest) => Some(rest),
        None => strip_prefix_if(t, "https://"),
    };
    if let Some(rest) = stripped {
        let rest = match strip_prefix_if(rest, "www.") {
            Some(x) => x,
            None => rest,
        };
        proof {
            assert(rest@ =~= https_rest(cleaned(url@)));
        }
        match split_once(rest, '/') {
            Some((server, path)) => Ok(RepoUrl::Https { server, path }),
            None => Err(ParseError::MissingDelimiter('/')),
        }
    } else {
        match split_once(t, ':') {
            Some((before, path)) => match split_once(before, '@') {
                Some((user, server)) => Ok(RepoUrl::Ssh { user, server, path }),
                None => Err(ParseError::MissingDelimiter('@')),
            },
            None => Err(ParseError::MissingDelimiter(':')),
        }
    }
}

/// Law: every input whose cleaned form starts with `http://` or `https://`,
/// and whose remainder after that prefix and an optional `www.` contains a
/// `/`, parses to the `Https` variant, with `server` the text up to the first
/// `/` of the remainder and `path` all the text after it.
pub proof fn lemma_https_inputs(input: Seq<char>)
    requires
        has_prefix(cleaned(input), http_prefix()) || has_prefix(cleaned(input), https_prefix()),
        has_char(https_rest(cleaned(input)), '/'),
    ensures
        ({
            let r = https_rest(cleaned(input));
            let i = find_char(r, '/');
            parse_spec(input) == Ok::<RepoUrlModel, char>(
                RepoUrlModel::Https {
                    server: r.subrange(0, i),
                    path: r.subrange(i + 1, r.len() as int),
                },
            )
        }),
{
    lemma_find_char(https_rest(cleaned(input)), '/');
}

/// Law: every input without an HTTP(S) prefix on its cleaned form that
/// contains a `:`, with an `@` before the first `:`, parses to the `Ssh`
/// variant: `user` the text before the first `@`, `server` the text between
/// that `@` and the first `:`, `path` all the text after the `:`.
pub proof fn lemma_ssh_inputs(input: Seq<char>)
    requires
        !has_prefix(cleaned(input), http_prefix()),
        !has_prefix(cleaned(input), https_prefix()),
        has_char(cleaned(input), ':'),
        has_char(cleaned(input).subrange(0, find_char(cleaned(input), ':')), '@'),
    ensures
        ({
            let s = cleaned(input);
            let i = find_char(s, ':');
            let before = s.subrange(0, i);
            let j = find_char(before, '@');
            parse_spec(input) == Ok::<RepoUrlModel, char>(
                RepoUrlModel::Ssh {
                    user: before.subrange(0, j),
                    server: before.subrange(j + 1, before.len() as int),
                    path: s.subrange(i + 1, s.len() as int),
                },
            )
        }),
{
    let s = cleaned(input);
    lemma_find_char(s, ':');
    lemma_find_char(s.subrange(0, find_char(s, ':')), '@');
}

/// Law: stripping `.git`, appending `.git` again, and stripping once more
/// gives back the first stripped string.
pub proof fn lemma_strip_git_idempotent(s: Seq<char>)
    ensures
        strip_git(strip_git(s) + git_suffix()) == strip_git(s),
{
    let t = strip_git(s);
    let e = t + git_suffix();
    assert(e.subrange(e.len() - 4, e.len() as int) =~= git_suffix());
    assert(e.take(e.len() - 4) =~= t);
}

} // verus!
