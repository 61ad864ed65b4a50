//! Git remotes and the configuration that names them.

use crate::text::{
    chars, find, find_char, find_str, find_text, has_suffix, join, joined, lemma_find,
    lemma_find_str_none, lemma_find_str_unique, lemma_find_unique, lemma_rfind, lowered, rfind,
    same_ignoring_case, split, splitted, string, to_lower, trim, trim_end, trim_start, trimmed,
    trimmed_end, trimmed_start, views, white_space, words, words_of, Class,
};
use crate::token::{all_digits, lemma_number, number_stripped, without_number};
use crate::unix::root;
use vstd::prelude::*;
use vstd::slice::slice_subrange;

verus! {

// ---- Remotes --------------------------------------------------------------

/// A URL without `scheme://`.
pub open spec fn without_scheme(s: Seq<char>) -> Seq<char> {
    match find_str(s, "://"@) {
        Some(i) => s.skip(i + "://"@.len()),
        None => s,
    }
}

/// A URL without `user@`.
pub open spec fn without_user(s: Seq<char>) -> Seq<char> {
    if find(s, '@') < s.len() {
        s.skip(find(s, '@') as int + 1)
    } else {
        s
    }
}

/// The place in a URL without the port behind its host: a `:` and a number at the
/// end of what stands before the first slash.
pub open spec fn without_port(s: Seq<char>) -> Seq<char> {
    let k = find(s, '/') as int;
    without_number(s.take(k)) + s.skip(k)
}

/// `host:path`, the form that `scp` takes, as `host/path`.
pub open spec fn with_slash(s: Seq<char>) -> Seq<char> {
    let k = find(s, ':') as int;
    if k < s.len() {
        s.take(k) + root() + trim_start(s.skip(k + 1), Class::Slash)
    } else {
        s
    }
}

/// A URL without a final `.git`.
pub open spec fn without_git(s: Seq<char>) -> Seq<char> {
    if ".git"@.is_suffix_of(s) {
        s.take(s.len() - ".git"@.len())
    } else {
        s
    }
}

/// Host and path of a remote, as they are written in the URL. Only behind a
/// scheme can there be a port; without one the first colon is that of
/// `host:path`.
pub open spec fn remote_location(url: Seq<char>) -> Seq<char> {
    let text = trim(url, Class::White);
    let place = without_user(without_scheme(text));
    with_slash(
        if find_str(text, "://"@) is Some {
            without_port(place)
        } else {
            place
        },
    )
}

/// The one string that the several ways of writing a remote are reduced to.
pub open spec fn remote_key(url: Seq<char>) -> Seq<char> {
    to_lower(
        trim_end(without_git(trim_end(remote_location(url), Class::Slash)), Class::Slash),
    )
}

fn port_stripped(s: &[char]) -> (r: Vec<char>)
    ensures
        r@ == without_port(s@),
{
    let slash: usize = find_char(s, '/');
    let host = slice_subrange(s, 0, slash);
    let rest = slice_subrange(s, slash, s.len());
    assert(host@ == s@.take(slash as int));
    assert(rest@ == s@.skip(slash as int));
    let mut r: Vec<char> = Vec::new();
    r.extend_from_slice(number_stripped(host));
    r.extend_from_slice(rest);
    assert(r@ == without_port(s@));
    r
}

fn user_stripped(s: &[char]) -> (r: &[char])
    ensures
        r@ == without_user(s@),
{
    let at: usize = find_char(s, '@');
    if at < s.len() {
        let rest = slice_subrange(s, at + 1, s.len());
        assert(rest@ == s@.skip(at + 1));
        rest
    } else {
        s
    }
}

fn slashed(s: &[char]) -> (r: Vec<char>)
    ensures
        r@ == with_slash(s@),
{
    let colon: usize = find_char(s, ':');
    let mut r: Vec<char> = Vec::new();
    if colon < s.len() {
        let path = slice_subrange(s, colon + 1, s.len());
        assert(path@ == s@.skip(colon + 1));
        r.extend_from_slice(slice_subrange(s, 0, colon));
        r.push('/');
        assert(r@ == s@.take(colon as int) + root());
        r.extend_from_slice(trimmed_start(path, Class::Slash));
    } else {
        r.extend_from_slice(s);
        assert(r@ == s@);
    }
    r
}

fn remote_location_of(url: &[char]) -> (r: Vec<char>)
    ensures
        r@ == remote_location(url@),
{
    let text = trimmed(url, Class::White);
    let scheme = chars("://");
    let end: usize = text.len();
    match find_text(text, scheme.as_slice()) {
        Some(i) => {
            let rest = slice_subrange(text, i + scheme.len(), end);
            assert(rest@ == text@.skip(i + "://"@.len()));
            slashed(port_stripped(user_stripped(rest)).as_slice())
        },
        None => slashed(user_stripped(text)),
    }
}

pub(crate) fn remote_key_of(url: &[char]) -> (r: Vec<char>)
    ensures
        r@ == remote_key(url@),
{
    let whole = remote_location_of(url);
    let mut location: &[char] = trimmed_end(whole.as_slice(), Class::Slash);
    let git = chars(".git");
    if has_suffix(location, git.as_slice()) {
        let rest = slice_subrange(location, 0, location.len() - git.len());
        assert(rest@ == location@.take(location@.len() - ".git"@.len()));
        location = rest;
    }
    lowered(trimmed_end(location, Class::Slash))
}

/// Reduces the several ways of writing the same remote to one string.
///
/// `git@github.com:o/r.git`, `https://github.com/o/r.git` and
/// `ssh://git@github.com:22/o/r` all describe one repository and produce one key:
/// a port is not part of it. Case is folded because hosts are case-insensitive,
/// and treating `Owner/Repo` as distinct from `owner/repo` would split a repo in
/// two more often than it would correctly separate one.
pub fn normalize_remote(url: &str) -> (r: String)
    ensures
        r@ == remote_key(url@),
{
    string(remote_key_of(chars(url).as_slice()).as_slice())
}

/// The last component of a remote that is not empty.
pub open spec fn remote_name(remote: Seq<char>) -> Option<Seq<char>> {
    let parts = words(remote, Class::Slash);
    if parts.len() > 0 {
        Some(parts.last())
    } else {
        None
    }
}

pub fn repo_name_from_remote(remote: &str) -> (r: Option<String>)
    ensures
        match r {
            Some(n) => remote_name(remote@) == Some(n@),
            None => remote_name(remote@) is None,
        },
{
    let text = chars(remote);
    let parts = words_of(text.as_slice(), Class::Slash);
    if parts.len() > 0 {
        assert(views(parts@).last() == parts@.last()@);
        Some(string(parts[parts.len() - 1]))
    } else {
        None
    }
}

// ---- Git's configuration --------------------------------------------------

/// Is this line, trimmed, the header of a section?
pub open spec fn is_header(line: Seq<char>) -> bool {
    line.len() > 0 && line.first() == '['
}

/// Is this header the one of `[remote "origin"]`? Spacing and case are free.
pub open spec fn is_origin_header(line: Seq<char>) -> bool {
    to_lower(join(words(trim(line, Class::Bracket), Class::White), " "@)) == to_lower(
        "remote \"origin\""@,
    )
}

/// The value of a `url = ...` line, unless it is empty.
pub open spec fn url_value(line: Seq<char>) -> Option<Seq<char>> {
    let k = find(line, '=') as int;
    let value = trim(line.skip(k + 1), Class::White);
    if k < line.len() && to_lower(trim(line.take(k), Class::White)) == to_lower("url"@)
        && value.len() > 0 {
        Some(value)
    } else {
        None
    }
}

/// The first `url` in a section headed `[remote "origin"]`. `in_origin` says
/// whether the lines start inside such a section.
pub open spec fn scan(lines: Seq<Seq<char>>, in_origin: bool) -> Option<Seq<char>>
    decreases lines.len(),
{
    if lines.len() == 0 {
        None
    } else {
        let line = trim(lines.first(), Class::White);
        let rest = lines.drop_first();
        if is_header(line) {
            scan(rest, is_origin_header(line))
        } else if in_origin && url_value(line) is Some {
            url_value(line)
        } else {
            scan(rest, in_origin)
        }
    }
}

/// The URL of the remote `origin` in a git configuration.
pub open spec fn config_url(config: Seq<char>) -> Option<Seq<char>> {
    scan(split(config, '\n'), false)
}

fn heads_origin(line: &[char]) -> (b: bool)
    ensures
        b == is_origin_header(line@),
{
    let parts = words_of(trimmed(line, Class::Bracket), Class::White);
    let header = joined(&parts, chars(" ").as_slice());
    same_ignoring_case(header.as_slice(), chars("remote \"origin\"").as_slice())
}

fn url_of<'a>(line: &'a [char]) -> (r: Option<&'a [char]>)
    ensures
        match r {
            Some(v) => url_value(line@) == Some(v@),
            None => url_value(line@) is None,
        },
{
    let k: usize = find_char(line, '=');
    if k < line.len() {
        let key = slice_subrange(line, 0, k);
        assert(key@ == line@.take(k as int));
        let tail: &'a [char] = slice_subrange(line, k + 1, line.len());
        assert(tail@ == line@.skip(k + 1));
        if same_ignoring_case(trimmed(key, Class::White), chars("url").as_slice()) {
            let value: &'a [char] = trimmed(tail, Class::White);
            if value.len() > 0 {
                return Some(value);
            }
        }
    }
    None
}

pub(crate) fn config_url_of(config: &[char]) -> (r: Option<Vec<char>>)
    ensures
        match r {
            Some(u) => config_url(config@) == Some(u@),
            None => config_url(config@) is None,
        },
{
    let lines = splitted(config, '\n');
    let mut in_origin: bool = false;
    let mut i: usize = 0;
    assert(views(lines@).skip(0) == views(lines@));
    while i < lines.len()
        invariant
            i <= lines@.len(),
            config_url(config@) == scan(views(lines@).skip(i as int), in_origin),
        decreases lines@.len() - i,
    {
        let line = trimmed(lines[i], Class::White);
        assert(views(lines@).skip(i as int).first() == lines@[i as int]@);
        assert(views(lines@).skip(i as int).drop_first() == views(lines@).skip(i + 1));
        if line.len() > 0 && line[0] == '[' {
            in_origin = heads_origin(line);
        } else if in_origin {
            if let Some(v) = url_of(line) {
                let mut r: Vec<char> = Vec::new();
                r.extend_from_slice(v);
                assert(r@ == v@);
                return Some(r);
            }
        }
        i += 1;
    }
    None
}

/// Pulls `url` out of the `[remote "origin"]` section of a git config.
pub fn origin_url(config: &str) -> (r: Option<String>)
    ensures
        match r {
            Some(u) => config_url(config@) == Some(u@),
            None => config_url(config@) is None,
        },
{
    match config_url_of(chars(config).as_slice()) {
        Some(u) => Some(string(u.as_slice())),
        None => None,
    }
}


// ---- Laws -----------------------------------------------------------------

/// Without a section `[remote "origin"]` there is no URL.
pub proof fn law_no_origin_no_url(config: Seq<char>)
    requires
        forall|i: int|
            0 <= i < split(config, '\n').len() ==> !is_origin_header(
                trim(#[trigger] split(config, '\n')[i], Class::White),
            ),
    ensures
        config_url(config) is None,
{
    lemma_no_origin(split(config, '\n'));
}

proof fn lemma_no_origin(lines: Seq<Seq<char>>)
    requires
        forall|i: int|
            0 <= i < lines.len() ==> !is_origin_header(trim(#[trigger] lines[i], Class::White)),
    ensures
        scan(lines, false) is None,
    decreases lines.len(),
{
    if lines.len() > 0 {
        let rest = lines.drop_first();
        assert(!is_origin_header(trim(lines[0], Class::White)));
        assert forall|i: int| 0 <= i < rest.len() implies !is_origin_header(
            trim(#[trigger] rest[i], Class::White),
        ) by {
            assert(rest[i] == lines[i + 1]);
        }
        lemma_no_origin(rest);
    }
}

/// No separator of a URL but the slash, and no white space.
pub open spec fn plain(s: Seq<char>) -> bool {
    forall|i: int|
        0 <= i < s.len() ==> (#[trigger] s[i]) != ':' && s[i] != '@' && !white_space(s[i])
}

/// The path of a repository on its host, without a trailing `.git`.
pub open spec fn repo_path(path: Seq<char>) -> bool {
    &&& path.len() > 0
    &&& path.first() != '/'
    &&& path.last() != '/'
    &&& !".git"@.is_suffix_of(path)
}

/// What a remote may end with.
pub open spec fn ending(git: bool, slash: bool) -> Seq<char> {
    (if git {
        ".git"@
    } else {
        seq![]
    }) + (if slash {
        root()
    } else {
        seq![]
    })
}

/// The forms in which one remote is written, with or without `.git` and a final
/// slash, have one key: host and path in lower case. So neither the form nor the
/// case tells two remotes apart.
pub proof fn law_remote_forms_have_one_key(
    scheme: Seq<char>,
    user: Seq<char>,
    host: Seq<char>,
    path: Seq<char>,
    git: bool,
    slash: bool,
)
    requires
        plain(scheme),
        plain(user),
        plain(host),
        plain(path),
        repo_path(path),
    ensures
        remote_key(user + seq!['@'] + host + seq![':'] + path + ending(git, slash)) == to_lower(
            host + root() + path,
        ),
        remote_key(scheme + "://"@ + host + root() + path + ending(git, slash)) == to_lower(
            host + root() + path,
        ),
        remote_key(scheme + "://"@ + user + seq!['@'] + host + root() + path + ending(git, slash))
            == to_lower(host + root() + path),
{
    lemma_place_key(host, path, git, slash);
    lemma_scp_form(user, host, path, git, slash);
    lemma_web_form(scheme, host, path, git, slash);
    lemma_ssh_form(scheme, user, host, path, git, slash);
}

/// A port leaves no trace in the key: a URL with one, behind a user or not, has
/// the key that the remote has without it. The number may even be missing.
pub proof fn law_port_is_not_part_of_the_key(
    scheme: Seq<char>,
    user: Seq<char>,
    host: Seq<char>,
    port: Seq<char>,
    path: Seq<char>,
    git: bool,
    slash: bool,
)
    requires
        plain(scheme),
        plain(user),
        plain(host),
        !host.contains('/'),
        all_digits(port),
        plain(path),
        repo_path(path),
    ensures
        remote_key(
            scheme + "://"@ + host + seq![':'] + port + root() + path + ending(git, slash),
        ) == to_lower(host + root() + path),
        remote_key(
            scheme + "://"@ + user + seq!['@'] + host + seq![':'] + port + root() + path + ending(
                git,
                slash,
            ),
        ) == to_lower(host + root() + path),
{
    lemma_place_key(host, path, git, slash);
    lemma_port_form(scheme, host, port, path, git, slash);
    lemma_user_port_form(scheme, user, host, port, path, git, slash);
}

proof fn lemma_port_form(
    scheme: Seq<char>,
    host: Seq<char>,
    port: Seq<char>,
    path: Seq<char>,
    git: bool,
    slash: bool,
)
    requires
        plain(scheme),
        plain(host),
        !host.contains('/'),
        all_digits(port),
        plain(path),
        repo_path(path),
    ensures
        remote_location(
            scheme + "://"@ + host + seq![':'] + port + root() + path + ending(git, slash),
        ) == host + root() + (path + ending(git, slash)),
{
    let rest = path + ending(git, slash);
    let place = host + seq![':'] + port + root() + rest;
    let url = scheme + "://"@ + host + seq![':'] + port + root() + path + ending(git, slash);
    lemma_plain_parts(host, path, git, slash);
    assert(url =~= scheme + "://"@ + place);
    assert(place.last() == rest[rest.len() - 1]);
    lemma_scheme(scheme, place);
    lemma_port(host, port, rest);
}

proof fn lemma_user_port_form(
    scheme: Seq<char>,
    user: Seq<char>,
    host: Seq<char>,
    port: Seq<char>,
    path: Seq<char>,
    git: bool,
    slash: bool,
)
    requires
        plain(scheme),
        plain(user),
        plain(host),
        !host.contains('/'),
        all_digits(port),
        plain(path),
        repo_path(path),
    ensures
        remote_location(
            scheme + "://"@ + user + seq!['@'] + host + seq![':'] + port + root() + path + ending(
                git,
                slash,
            ),
        ) == host + root() + (path + ending(git, slash)),
{
    let rest = path + ending(git, slash);
    let place = host + seq![':'] + port + root() + rest;
    let owned = user + seq!['@'] + place;
    let url = scheme + "://"@ + user + seq!['@'] + host + seq![':'] + port + root() + path + ending(
        git,
        slash,
    );
    lemma_plain_parts(host, path, git, slash);
    assert(url =~= scheme + "://"@ + owned);
    assert(owned.last() == rest[rest.len() - 1]);
    lemma_scheme(scheme, owned);
    lemma_user(user, place);
    lemma_port(host, port, rest);
}

/// The place that `host:port/path` in a URL names. There is no user in it.
pub(crate) proof fn lemma_port(host: Seq<char>, port: Seq<char>, rest: Seq<char>)
    requires
        plain(host),
        !host.contains('/'),
        all_digits(port),
        plain(rest),
        rest.len() > 0,
        rest.first() != '/',
    ensures
        without_user(host + seq![':'] + port + root() + rest) == host + seq![':'] + port + root()
            + rest,
        with_slash(without_port(host + seq![':'] + port + root() + rest)) == host + root() + rest,
{
    let s = host + seq![':'] + port + root() + rest;
    let n = host.len() as int;
    let k = n + 1 + port.len();
    assert forall|i: int| 0 <= i < s.len() implies s[i] != '@' by {
        if i < n {
            assert(s[i] == host[i]);
        } else if n < i < k {
            assert(s[i] == port[i - n - 1]);
        } else if i > k {
            assert(s[i] == rest[i - k - 1]);
        }
    }
    lemma_find_unique(s, '@', s.len() as int);
    assert forall|i: int| 0 <= i < k implies s[i] != '/' by {
        if i < n {
            assert(s[i] == host[i]);
            assert(host.contains(host[i]));
        } else if n < i {
            assert(s[i] == port[i - n - 1]);
        }
    }
    assert(s[k] == '/');
    lemma_find_unique(s, '/', k);
    assert(s.take(k) =~= host + seq![':'] + port);
    assert(s.skip(k) =~= root() + rest);
    if port.len() > 0 {
        lemma_number(host, port);
        let place = host + root() + rest;
        assert(without_port(s) =~= place);
        assert(plain(place)) by {
            assert forall|i: int| 0 <= i < place.len() implies (#[trigger] place[i]) != ':'
                && place[i] != '@' && !white_space(place[i]) by {
                if i < n {
                    assert(place[i] == host[i]);
                } else if i > n {
                    assert(place[i] == rest[i - n - 1]);
                }
            }
        }
        lemma_place(place);
    } else {
        let head = s.take(k);
        assert(head.last() == ':');
        assert(without_port(s) =~= s);
        assert forall|i: int| 0 <= i < n implies s[i] != ':' by {
            assert(s[i] == host[i]);
        }
        lemma_find_unique(s, ':', n);
        assert(s.take(n) =~= host);
        let tail = s.skip(n + 1);
        assert(tail =~= root() + rest);
        assert(tail.drop_first() =~= rest);
        assert(trim_start(rest, Class::Slash) == rest);
        assert(trim_start(tail, Class::Slash) == rest);
    }
}

pub(crate) proof fn lemma_place_key(host: Seq<char>, path: Seq<char>, git: bool, slash: bool)
    requires
        repo_path(path),
    ensures
        trim_end(
            without_git(
                trim_end(host + root() + (path + ending(git, slash)), Class::Slash),
            ),
            Class::Slash,
        ) == host + root() + path,
{
    let short = host + root() + path;
    assert(short + ending(git, slash) =~= host + root() + (path + ending(git, slash)));
    assert(short.skip(host.len() as int + 1) =~= path);
    lemma_ending(short, host.len() as int, path, git, slash);
}

proof fn lemma_scp_form(user: Seq<char>, host: Seq<char>, path: Seq<char>, git: bool, slash: bool)
    requires
        plain(user),
        plain(host),
        plain(path),
        repo_path(path),
    ensures
        remote_location(user + seq!['@'] + host + seq![':'] + path + ending(git, slash)) == host
            + root() + (path + ending(git, slash)),
{
    let rest = path + ending(git, slash);
    let scp = user + seq!['@'] + host + seq![':'] + path + ending(git, slash);
    lemma_plain_parts(host, path, git, slash);
    assert(scp =~= user + seq!['@'] + host + seq![':'] + rest);
    lemma_scp(user, host, rest);
}

proof fn lemma_web_form(scheme: Seq<char>, host: Seq<char>, path: Seq<char>, git: bool, slash: bool)
    requires
        plain(scheme),
        plain(host),
        plain(path),
        repo_path(path),
    ensures
        remote_location(scheme + "://"@ + host + root() + path + ending(git, slash)) == host
            + root() + (path + ending(git, slash)),
{
    let place = host + root() + (path + ending(git, slash));
    let web = scheme + "://"@ + host + root() + path + ending(git, slash);
    lemma_plain_parts(host, path, git, slash);
    assert(web =~= scheme + "://"@ + place);
    lemma_scheme(scheme, place);
    lemma_place(place);
}

proof fn lemma_ssh_form(
    scheme: Seq<char>,
    user: Seq<char>,
    host: Seq<char>,
    path: Seq<char>,
    git: bool,
    slash: bool,
)
    requires
        plain(scheme),
        plain(user),
        plain(host),
        plain(path),
        repo_path(path),
    ensures
        remote_location(
            scheme + "://"@ + user + seq!['@'] + host + root() + path + ending(git, slash),
        ) == host + root() + (path + ending(git, slash)),
{
    let place = host + root() + (path + ending(git, slash));
    let owned = user + seq!['@'] + place;
    let ssh = scheme + "://"@ + user + seq!['@'] + host + root() + path + ending(git, slash);
    lemma_plain_parts(host, path, git, slash);
    assert(ssh =~= scheme + "://"@ + owned);
    assert(owned.last() == place.last());
    lemma_scheme(scheme, owned);
    lemma_user(user, place);
    lemma_place(place);
}

/// Host and path, with what they may end with, are plain.
pub(crate) proof fn lemma_plain_parts(host: Seq<char>, path: Seq<char>, git: bool, slash: bool)
    requires
        plain(host),
        plain(path),
        repo_path(path),
    ensures
        plain(path + ending(git, slash)),
        (path + ending(git, slash)).len() > 0,
        (path + ending(git, slash)).first() != '/',
        plain(host + root() + (path + ending(git, slash))),
        !white_space((host + root() + (path + ending(git, slash))).last()),
{
    reveal_strlit(".git");
    let end = ending(git, slash);
    assert(plain(end));
    let rest = path + end;
    assert forall|i: int| 0 <= i < rest.len() implies (#[trigger] rest[i]) != ':' && rest[i] != '@'
        && !white_space(rest[i]) by {
        if i < path.len() {
            assert(rest[i] == path[i]);
        } else {
            assert(rest[i] == end[i - path.len()]);
        }
    }
    let place = host + root() + rest;
    assert forall|i: int| 0 <= i < place.len() implies (#[trigger] place[i]) != ':' && place[i]
        != '@' && !white_space(place[i]) by {
        if i < host.len() {
            assert(place[i] == host[i]);
        } else if i > host.len() {
            assert(place[i] == rest[i - host.len() - 1]);
        }
    }
    assert(place.last() == place[place.len() - 1]);
}

/// The place that `user@host:path` names.
proof fn lemma_scp(user: Seq<char>, host: Seq<char>, rest: Seq<char>)
    requires
        plain(user),
        plain(host),
        plain(rest),
        rest.len() > 0,
        rest.first() != '/',
    ensures
        remote_location(user + seq!['@'] + host + seq![':'] + rest) == host + root() + rest,
{
    reveal_strlit("://");
    let scp = user + seq!['@'] + host + seq![':'] + rest;
    let colon = user.len() + 1 + host.len();
    assert(scp.last() == rest[rest.len() - 1]);
    assert(scp.first() == if user.len() > 0 {
        user[0]
    } else {
        '@'
    });
    lemma_untrimmed(scp);
    assert forall|i: int| 0 <= i <= scp.len() implies !"://"@.is_prefix_of(
        #[trigger] scp.skip(i),
    ) by {
        if "://"@.is_prefix_of(scp.skip(i)) {
            assert("://"@[0] == scp.skip(i)[0] && "://"@[1] == scp.skip(i)[1]);
            assert(scp[i] == ':' && scp[i + 1] == '/');
            if i < user.len() {
                assert(scp[i] == user[i]);
            } else if user.len() < i < colon {
                assert(scp[i] == host[i - user.len() - 1]);
            } else if i > colon {
                assert(scp[i] == rest[i - colon - 1]);
            }
            assert(i == colon);
            assert(scp[i + 1] == rest[0]);
        }
    }
    lemma_find_str_none(scp, "://"@);
    let short = host + seq![':'] + rest;
    assert(scp =~= user + seq!['@'] + short);
    lemma_user(user, short);
    assert forall|i: int| 0 <= i < host.len() implies short[i] != ':' by {
        assert(short[i] == host[i]);
    }
    lemma_find_unique(short, ':', host.len() as int);
    assert(short.take(host.len() as int) =~= host);
    assert(short.skip(host.len() as int + 1) =~= rest);
}

/// Text without white space at its ends is not trimmed.
pub(crate) proof fn lemma_untrimmed(s: Seq<char>)
    requires
        s.len() > 0,
        !white_space(s.first()),
        !white_space(s.last()),
    ensures
        trim(s, Class::White) == s,
{
}

/// A plain place has neither user nor port.
pub(crate) proof fn lemma_place(place: Seq<char>)
    requires
        plain(place),
    ensures
        without_user(place) == place,
        without_port(place) == place,
        with_slash(place) == place,
{
    lemma_find(place, '@');
    lemma_find(place, ':');
    lemma_find(place, '/');
    let host = place.take(find(place, '/') as int);
    lemma_rfind(host, ':');
    if rfind(host, ':') >= 0 {
        assert(place[rfind(host, ':')] == ':');
    }
    assert(host + place.skip(find(place, '/') as int) =~= place);
    if find(place, '@') < place.len() {
        assert(place[find(place, '@') as int] == '@');
    }
    if find(place, ':') < place.len() {
        assert(place[find(place, ':') as int] == ':');
    }
}

proof fn lemma_user(user: Seq<char>, rest: Seq<char>)
    requires
        plain(user),
    ensures
        without_user(user + seq!['@'] + rest) == rest,
{
    let s = user + seq!['@'] + rest;
    assert forall|i: int| 0 <= i < user.len() implies s[i] != '@' by {
        assert(s[i] == user[i]);
    }
    assert(s[user.len() as int] == '@');
    lemma_find_unique(s, '@', user.len() as int);
    assert(s.skip(user.len() as int + 1) =~= rest);
}

pub(crate) proof fn lemma_scheme(scheme: Seq<char>, rest: Seq<char>)
    requires
        plain(scheme),
        rest.len() > 0,
        !white_space(rest.last()),
    ensures
        without_scheme(trim(scheme + "://"@ + rest, Class::White)) == rest,
        find_str(trim(scheme + "://"@ + rest, Class::White), "://"@) is Some,
{
    reveal_strlit("://");
    let s = scheme + "://"@ + rest;
    let n = scheme.len() as int;
    assert(s.last() == rest.last());
    assert(s.first() == if n > 0 {
        scheme[0]
    } else {
        ':'
    });
    lemma_untrimmed(s);
    assert(s.skip(n) =~= "://"@ + rest);
    assert("://"@.is_prefix_of(s.skip(n)));
    assert forall|i: int| 0 <= i < n implies !"://"@.is_prefix_of(#[trigger] s.skip(i)) by {
        if "://"@.is_prefix_of(s.skip(i)) {
            assert("://"@[0] == s.skip(i)[0]);
            assert(s[i] == scheme[i]);
        }
    }
    lemma_find_str_unique(s, "://"@, n);
    assert(s.skip(n + 3) =~= rest);
}

/// What a remote may end with is taken off.
proof fn lemma_ending(place: Seq<char>, host: int, path: Seq<char>, git: bool, slash: bool)
    requires
        repo_path(path),
        place.len() == host + 1 + path.len(),
        host >= 0,
        place[host] == '/',
        place.skip(host + 1) == path,
    ensures
        trim_end(
            without_git(trim_end(place + ending(git, slash), Class::Slash)),
            Class::Slash,
        ) == place,
{
    reveal_strlit(".git");
    let dotted = place + (if git {
        ".git"@
    } else {
        seq![]
    });
    let whole = place + ending(git, slash);
    assert(place.last() == path.last());
    assert(dotted.last() != '/');
    if slash {
        assert(whole.last() == '/');
        assert(whole.drop_last() =~= dotted);
        assert(trim_end(dotted, Class::Slash) == dotted);
    } else {
        assert(whole =~= dotted);
    }
    assert(trim_end(whole, Class::Slash) == dotted);
    if git {
        assert(".git"@.is_suffix_of(dotted)) by {
            assert(dotted.subrange(dotted.len() - 4, dotted.len() as int) =~= ".git"@);
        }
        assert(dotted.take(dotted.len() - 4) =~= place);
    } else {
        assert(dotted =~= place);
        if ".git"@.is_suffix_of(place) {
            let n = place.len() as int;
            assert(place.subrange(n - 4, n) == ".git"@);
            if path.len() >= 4 {
                let m = path.len() as int;
                assert(path.subrange(m - 4, m) =~= place.subrange(n - 4, n));
            } else {
                assert(place.subrange(n - 4, n)[host - (n - 4)] == '/');
                assert(".git"@[0] == '.' && ".git"@[1] == 'g' && ".git"@[2] == 'i' && ".git"@[3]
                    == 't');
            }
        }
    }
}

} // verus!
