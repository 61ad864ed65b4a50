//! Remotes and the configuration that names them.

use crate::laws::text::{
    all_in, law_join_puts_separators_between, law_pieces_stand_between_separators,
    law_trim_takes_off_the_ends, law_words_stand_between_separators, lemma_one_word,
    lemma_trim_left, lemma_trim_right, none_in,
};
use crate::laws::token::law_numbers_come_off;
use crate::remote::{
    config_url, ending, is_header, is_origin_header, lemma_place, lemma_place_key,
    lemma_plain_parts, lemma_port, lemma_scheme, lemma_untrimmed, plain, remote_key,
    remote_location, remote_name, repo_path, scan, url_value, with_slash, without_git, without_port,
    without_user,
};
use crate::text::{
    ascii_digit, ascii_upper, find, find_str, join, lemma_find, lemma_find_str_none,
    lemma_find_unique, lemma_words, split, to_lower, trim, trim_end, trim_start, white_space, words,
    Class,
};
use crate::token::all_digits;
use crate::unix::root;
use vstd::prelude::*;

verus! {

/// What stands before the first `@` is dropped, whatever it is.
proof fn lemma_owner(owner: Seq<char>, rest: Seq<char>)
    requires
        !owner.contains('@'),
    ensures
        without_user(owner + seq!['@'] + rest) == rest,
{
    let s = owner + seq!['@'] + rest;
    assert forall|i: int| 0 <= i < owner.len() implies s[i] != '@' by {
        assert(s[i] == owner[i]);
    }
    assert(s[owner.len() as int] == '@');
    lemma_find_unique(s, '@', owner.len() as int);
    assert(s.skip(owner.len() as int + 1) =~= rest);
}

/// The location of a URL with a scheme and an owner before the `@`.
proof fn lemma_owned(scheme: Seq<char>, owner: Seq<char>, rest: Seq<char>)
    requires
        plain(scheme),
        !owner.contains('@'),
        rest.len() > 0,
        !white_space(rest.last()),
    ensures
        remote_location(scheme + "://"@ + (owner + seq!['@'] + rest)) == with_slash(
            without_port(rest),
        ),
{
    let owned = owner + seq!['@'] + rest;
    assert(owned.last() == rest.last());
    lemma_scheme(scheme, owned);
    lemma_owner(owner, rest);
}

/// The location of a URL with a scheme and no owner.
proof fn lemma_unowned(scheme: Seq<char>, rest: Seq<char>)
    requires
        plain(scheme),
        !rest.contains('@'),
        rest.len() > 0,
        !white_space(rest.last()),
    ensures
        remote_location(scheme + "://"@ + rest) == with_slash(without_port(rest)),
{
    lemma_scheme(scheme, rest);
    lemma_find(rest, '@');
}

/// Who fetches is not part of the key: what stands before the first `@` of a URL, a
/// user, a user with a password or anything else, makes no difference, and a URL
/// without it has the same key.
pub proof fn law_owner_is_not_part_of_the_key(
    scheme: Seq<char>,
    owner: Seq<char>,
    other: Seq<char>,
    rest: Seq<char>,
)
    requires
        plain(scheme),
        !owner.contains('@'),
        !other.contains('@'),
        rest.len() > 0,
        !white_space(rest.last()),
    ensures
        remote_key(scheme + "://"@ + (owner + seq!['@'] + rest)) == remote_key(
            scheme + "://"@ + (other + seq!['@'] + rest),
        ),
        !rest.contains('@') ==> remote_key(scheme + "://"@ + (owner + seq!['@'] + rest))
            == remote_key(scheme + "://"@ + rest),
{
    lemma_owned(scheme, owner, rest);
    lemma_owned(scheme, other, rest);
    if !rest.contains('@') {
        lemma_unowned(scheme, rest);
    }
}

/// The scheme is not part of the key.
pub proof fn law_scheme_is_not_part_of_the_key(a: Seq<char>, b: Seq<char>, rest: Seq<char>)
    requires
        plain(a),
        plain(b),
        rest.len() > 0,
        !white_space(rest.last()),
    ensures
        remote_key(a + "://"@ + rest) == remote_key(b + "://"@ + rest),
{
    lemma_scheme(a, rest);
    lemma_scheme(b, rest);
}

/// A remote whose user part carries a password has the key that it has without.
pub proof fn law_password_is_not_part_of_the_key(
    scheme: Seq<char>,
    user: Seq<char>,
    password: Seq<char>,
    host: Seq<char>,
    path: Seq<char>,
    git: bool,
    slash: bool,
)
    requires
        plain(scheme),
        !user.contains('@'),
        !password.contains('@'),
        plain(host),
        plain(path),
        repo_path(path),
    ensures
        remote_key(
            scheme + "://"@ + user + seq![':'] + password + seq!['@'] + host + root() + path
                + ending(git, slash),
        ) == to_lower(host + root() + path),
{
    let owner = user + seq![':'] + password;
    let place = host + root() + (path + ending(git, slash));
    let url = scheme + "://"@ + user + seq![':'] + password + seq!['@'] + host + root() + path
        + ending(git, slash);
    lemma_no_at(user, password);
    lemma_plain_parts(host, path, git, slash);
    assert(url =~= scheme + "://"@ + (owner + seq!['@'] + place));
    lemma_owned(scheme, owner, place);
    lemma_place(place);
    lemma_place_key(host, path, git, slash);
}

/// The same where the host has a port.
pub proof fn law_password_and_port_are_not_part_of_the_key(
    scheme: Seq<char>,
    user: Seq<char>,
    password: Seq<char>,
    host: Seq<char>,
    port: Seq<char>,
    path: Seq<char>,
    git: bool,
    slash: bool,
)
    requires
        plain(scheme),
        !user.contains('@'),
        !password.contains('@'),
        plain(host),
        !host.contains('/'),
        all_digits(port),
        plain(path),
        repo_path(path),
    ensures
        remote_key(
            scheme + "://"@ + user + seq![':'] + password + seq!['@'] + host + seq![':'] + port
                + root() + path + ending(git, slash),
        ) == to_lower(host + root() + path),
{
    let owner = user + seq![':'] + password;
    let rest = path + ending(git, slash);
    let place = host + seq![':'] + port + root() + rest;
    let url = scheme + "://"@ + user + seq![':'] + password + seq!['@'] + host + seq![':'] + port
        + root() + path + ending(git, slash);
    lemma_no_at(user, password);
    lemma_plain_parts(host, path, git, slash);
    assert(url =~= scheme + "://"@ + (owner + seq!['@'] + place));
    assert(place.last() == rest[rest.len() - 1]);
    lemma_owned(scheme, owner, place);
    lemma_port(host, port, rest);
    lemma_place_key(host, path, git, slash);
}

proof fn lemma_no_at(user: Seq<char>, password: Seq<char>)
    requires
        !user.contains('@'),
        !password.contains('@'),
    ensures
        !(user + seq![':'] + password).contains('@'),
{
    let owner = user + seq![':'] + password;
    assert forall|i: int| 0 <= i < owner.len() implies owner[i] != '@' by {
        if i < user.len() {
            assert(owner[i] == user[i]);
        } else if i > user.len() {
            assert(owner[i] == password[i - user.len() - 1]);
        }
    }
}

/// White space round a URL is not part of the key.
pub proof fn law_space_round_a_remote_is_free(left: Seq<char>, url: Seq<char>, right: Seq<char>)
    requires
        all_in(left, Class::White),
        all_in(right, Class::White),
        url.len() > 0 ==> !white_space(url.first()) && !white_space(url.last()),
    ensures
        remote_key(left + url + right) == remote_key(url),
{
    law_trim_takes_off_the_ends(left, url, right, Class::White);
    assert(trim(url, Class::White) == url);
}

/// A key holds no upper-case letter and does not end in a slash.
pub proof fn law_keys_are_in_lower_case(url: Seq<char>, i: int)
    requires
        0 <= i < remote_key(url).len(),
    ensures
        !ascii_upper(remote_key(url)[i]),
        remote_key(url).last() != '/',
{
    let place = without_git(trim_end(remote_location(url), Class::Slash));
    lemma_trimmed_end(place, Class::Slash);
}

proof fn lemma_trimmed_end(s: Seq<char>, k: Class)
    ensures
        trim_end(s, k).len() > 0 ==> !k.has(trim_end(s, k).last()),
    decreases s.len(),
{
    if s.len() > 0 && k.has(s.last()) {
        lemma_trimmed_end(s.drop_last(), k);
    }
}

/// In the form without a scheme only the first colon parts host from path: further
/// ones, and any `@` behind the first, are part of the path. Slashes behind the
/// colon are dropped.
pub proof fn law_first_colon_parts_host_from_path(
    user: Seq<char>,
    host: Seq<char>,
    slashes: Seq<char>,
    path: Seq<char>,
)
    requires
        !user.contains('@'),
        !host.contains(':'),
        all_in(slashes, Class::Slash),
        repo_path(path),
        ({
            let url = user + seq!['@'] + (host + seq![':'] + (slashes + path));
            find_str(url, "://"@) is None && !white_space(url.first()) && !white_space(url.last())
        }),
    ensures
        remote_key(user + seq!['@'] + (host + seq![':'] + (slashes + path))) == to_lower(
            host + root() + path,
        ),
{
    let tail = slashes + path;
    let short = host + seq![':'] + tail;
    let url = user + seq!['@'] + short;
    lemma_untrimmed(url);
    lemma_owner(user, short);
    let n = host.len() as int;
    assert forall|i: int| 0 <= i < n implies short[i] != ':' by {
        assert(short[i] == host[i]);
    }
    assert(short[n] == ':');
    lemma_find_unique(short, ':', n);
    assert(short.take(n) =~= host);
    assert(short.skip(n + 1) =~= tail);
    lemma_trim_left(slashes, path, Class::Slash);
    lemma_place_key(host, path, false, false);
    assert(path + ending(false, false) =~= path);
}

/// Behind a scheme, too, what follows the colon is the path where it does not start with
/// a number: `ssh://git@host:owner/repo` is `host/owner/repo`.
pub proof fn law_a_colon_without_a_port_parts_host_from_path(
    scheme: Seq<char>,
    owner: Seq<char>,
    host: Seq<char>,
    word: Seq<char>,
    more: Seq<char>,
    git: bool,
    slash: bool,
)
    requires
        plain(scheme),
        !owner.contains('@'),
        plain(host),
        !host.contains('/'),
        plain(word),
        word.len() > 0,
        !word.contains('/'),
        !all_digits(word),
        plain(more),
        more.len() > 0 ==> more.first() == '/',
        repo_path(word + more),
    ensures
        remote_key(
            scheme + "://"@ + (owner + seq!['@'] + (host + seq![':'] + (word + more + ending(
                git,
                slash,
            )))),
        ) == to_lower(host + root() + (word + more)),
{
    let path = word + more;
    let tail = path + ending(git, slash);
    let place = host + seq![':'] + tail;
    lemma_plain_concat(word, more);
    lemma_plain_parts(host, path, git, slash);
    assert(place.last() == tail[tail.len() - 1]);
    assert(!white_space(tail[tail.len() - 1]));
    lemma_owned(scheme, owner, place);
    assert(plain(ending(git, slash))) by {
        reveal_strlit(".git");
    }
    lemma_plain_concat(more, ending(git, slash));
    lemma_no_port(host, word, more + ending(git, slash));
    assert(word + (more + ending(git, slash)) =~= tail);
    let n = host.len() as int;
    assert forall|i: int| 0 <= i < n implies place[i] != ':' by {
        assert(place[i] == host[i]);
    }
    assert(place[n] == ':');
    lemma_find_unique(place, ':', n);
    assert(place.take(n) =~= host);
    assert(place.skip(n + 1) =~= tail);
    assert(trim_start(tail, Class::Slash) == tail);
    lemma_place_key(host, path, git, slash);
}

proof fn lemma_no_port(host: Seq<char>, word: Seq<char>, rest: Seq<char>)
    requires
        !host.contains('/'),
        word.len() > 0,
        !word.contains('/'),
        !all_digits(word),
        plain(word),
        plain(rest),
    ensures
        without_port(host + seq![':'] + (word + rest)) == host + seq![':'] + (word + rest),
{
    let tail = word + rest;
    let place = host + seq![':'] + tail;
    lemma_find(place, '/');
    lemma_find(tail, '/');
    let k = find(place, '/') as int;
    let m = host.len() + 1 + word.len();
    assert(k >= m) by {
        if k < m {
            assert(place[k] == '/');
            if k < host.len() {
                assert(host.contains(place[k]));
            } else if k > host.len() {
                assert(word.contains(place[k]));
            }
        }
    }
    let w = place.take(k).skip(host.len() as int + 1);
    assert(place.take(k) =~= host + seq![':'] + w);
    assert(!w.contains(':')) by {
        assert forall|i: int| 0 <= i < w.len() implies w[i] != ':' by {
            if i < word.len() {
                assert(w[i] == word[i]);
            } else {
                assert(w[i] == rest[i - word.len()]);
            }
        }
    }
    assert(!all_digits(w)) by {
        let j = choose|j: int| 0 <= j < word.len() && !ascii_digit(#[trigger] word[j]);
        assert(w[j] == word[j]);
    }
    law_numbers_come_off(host, w);
    assert(place.take(k) + place.skip(k) =~= place);
}

/// Host and path by themselves, with a slash or a colon between, have the key that they
/// have with a scheme and a user.
pub proof fn law_bare_forms_have_the_same_key(
    host: Seq<char>,
    path: Seq<char>,
    git: bool,
    slash: bool,
)
    requires
        plain(host),
        plain(path),
        repo_path(path),
    ensures
        remote_key(host + root() + (path + ending(git, slash))) == to_lower(host + root() + path),
        remote_key(host + seq![':'] + (path + ending(git, slash))) == to_lower(
            host + root() + path,
        ),
{
    let rest = path + ending(git, slash);
    let place = host + root() + rest;
    let short = host + seq![':'] + rest;
    lemma_plain_parts(host, path, git, slash);
    lemma_place_key(host, path, git, slash);
    lemma_no_scheme(host, root(), rest);
    lemma_no_scheme(host, seq![':'], rest);
    lemma_place(place);
    let n = host.len() as int;
    assert forall|i: int| 0 <= i < short.len() implies short[i] != '@' by {
        if i < n {
            assert(short[i] == host[i]);
        } else if i > n {
            assert(short[i] == rest[i - n - 1]);
        }
    }
    lemma_find_unique(short, '@', short.len() as int);
    assert forall|i: int| 0 <= i < n implies short[i] != ':' by {
        assert(short[i] == host[i]);
    }
    assert(short[n] == ':');
    lemma_find_unique(short, ':', n);
    assert(short.take(n) =~= host);
    assert(short.skip(n + 1) =~= rest);
    assert(trim_start(rest, Class::Slash) == rest);
}

proof fn lemma_no_scheme(host: Seq<char>, between: Seq<char>, rest: Seq<char>)
    requires
        plain(host),
        plain(rest),
        rest.len() > 0,
        rest.first() != '/',
        between == root() || between == seq![':'],
    ensures
        find_str(host + between + rest, "://"@) is None,
        trim(host + between + rest, Class::White) == host + between + rest,
{
    reveal_strlit("://");
    let s = host + between + rest;
    let n = host.len() as int;
    assert(s.last() == rest[rest.len() - 1]);
    assert(s.first() == if n > 0 {
        host[0]
    } else {
        between[0]
    });
    lemma_untrimmed(s);
    assert forall|i: int| 0 <= i <= s.len() implies !"://"@.is_prefix_of(#[trigger] s.skip(i)) by {
        if "://"@.is_prefix_of(s.skip(i)) {
            assert("://"@[0] == s.skip(i)[0] && "://"@[1] == s.skip(i)[1]);
            assert(s[i] == ':' && s[i + 1] == '/');
            if i < n {
                assert(s[i] == host[i]);
            } else if i > n {
                assert(s[i] == rest[i - n - 1]);
            } else {
                assert(s[i + 1] == rest[0]);
            }
        }
    }
    lemma_find_str_none(s, "://"@);
}

/// What a remote ends with is not part of the key: slashes, and one `.git` with
/// slashes on either side. A second `.git` is part of the name.
pub proof fn law_one_git_is_dropped(
    scheme: Seq<char>,
    host: Seq<char>,
    path: Seq<char>,
    before: Seq<char>,
    after: Seq<char>,
)
    requires
        plain(scheme),
        plain(host),
        plain(path),
        path.len() > 0,
        path.last() != '/',
        all_in(before, Class::Slash),
        all_in(after, Class::Slash),
    ensures
        remote_key(scheme + "://"@ + (host + root() + path + before + ".git"@ + after)) == to_lower(
            host + root() + path,
        ),
        !".git"@.is_suffix_of(host + root() + path) ==> remote_key(
            scheme + "://"@ + (host + root() + path + after),
        ) == to_lower(host + root() + path),
{
    let place = host + root() + path;
    assert(place.last() == path.last());
    lemma_git_place(scheme, place, before, after);
    lemma_bare_place(scheme, place, after);
}

proof fn lemma_plain_concat(a: Seq<char>, b: Seq<char>)
    requires
        plain(a),
        plain(b),
    ensures
        plain(a + b),
{
    let s = a + b;
    assert forall|i: int| 0 <= i < s.len() implies (#[trigger] s[i]) != ':' && s[i] != '@'
        && !white_space(s[i]) by {
        if i < a.len() {
            assert(s[i] == a[i]);
        } else {
            assert(s[i] == b[i - a.len()]);
        }
    }
}

proof fn lemma_plain_place(scheme: Seq<char>, place: Seq<char>)
    requires
        plain(scheme),
        plain(place),
        place.len() > 0,
    ensures
        remote_location(scheme + "://"@ + place) == place,
{
    assert(place.last() == place[place.len() - 1]);
    lemma_scheme(scheme, place);
    lemma_place(place);
}

proof fn lemma_bare_place(scheme: Seq<char>, place: Seq<char>, after: Seq<char>)
    requires
        plain(scheme),
        plain(place),
        place.len() > 0,
        place.last() != '/',
        all_in(after, Class::Slash),
    ensures
        !".git"@.is_suffix_of(place) ==> remote_key(scheme + "://"@ + (place + after)) == to_lower(
            place,
        ),
{
    assert(plain(after));
    lemma_plain_concat(place, after);
    lemma_plain_place(scheme, place + after);
    lemma_trim_right(place, after, Class::Slash);
}

proof fn lemma_git_place(scheme: Seq<char>, place: Seq<char>, before: Seq<char>, after: Seq<char>)
    requires
        plain(scheme),
        plain(place),
        place.len() > 0,
        place.last() != '/',
        all_in(before, Class::Slash),
        all_in(after, Class::Slash),
    ensures
        remote_key(scheme + "://"@ + (place + before + ".git"@ + after)) == to_lower(place),
{
    reveal_strlit(".git");
    assert(plain(before));
    assert(plain(after));
    assert(plain(".git"@));
    let dotted = place + before + ".git"@;
    lemma_plain_concat(place, before);
    lemma_plain_concat(place + before, ".git"@);
    lemma_plain_concat(dotted, after);
    lemma_plain_place(scheme, dotted + after);
    assert(dotted.last() == 't');
    lemma_trim_right(dotted, after, Class::Slash);
    let n = dotted.len() as int;
    assert(dotted.subrange(n - 4, n) =~= ".git"@);
    assert(".git"@.is_suffix_of(dotted));
    assert(dotted.take(n - 4) =~= place + before);
    lemma_trim_right(place, before, Class::Slash);
}

/// The name of a repository is what follows the last slash of its remote, slashes at
/// the end aside.
pub proof fn law_name_follows_the_last_slash(base: Seq<char>, name: Seq<char>, slashes: Seq<char>)
    requires
        name.len() > 0,
        !name.contains('/'),
        all_in(slashes, Class::Slash),
    ensures
        remote_name(base + seq!['/'] + (name + slashes)) == Some(name),
        remote_name(name + slashes) == Some(name),
        remote_name(slashes) is None,
{
    assert(none_in(name, Class::Slash)) by {
        assert forall|i: int| 0 <= i < name.len() implies !Class::Slash.has(#[trigger] name[i]) by {
            assert(name.contains(name[i]));
        }
    }
    lemma_one_word(name, Class::Slash);
    lemma_words_of_none(slashes, Class::Slash);
    if slashes.len() > 0 {
        let rest = slashes.drop_first();
        assert(name + slashes =~= name + seq![slashes[0]] + rest);
        law_words_stand_between_separators(name, slashes[0], rest, Class::Slash);
        assert(all_in(rest, Class::Slash)) by {
            assert forall|i: int| 0 <= i < rest.len() implies Class::Slash.has(
                #[trigger] rest[i],
            ) by {
                assert(rest[i] == slashes[i + 1]);
            }
        }
        lemma_words_of_none(rest, Class::Slash);
    } else {
        assert(name + slashes =~= name);
    }
    assert(words(name + slashes, Class::Slash) =~= seq![name]);
    law_words_stand_between_separators(base, '/', name + slashes, Class::Slash);
}

pub proof fn lemma_words_of_none(s: Seq<char>, k: Class)
    requires
        all_in(s, k),
    ensures
        words(s, k) == Seq::<Seq<char>>::empty(),
    decreases s.len(),
{
    if s.len() > 0 {
        assert(k.has(s[0]));
        let rest = s.drop_first();
        assert forall|i: int| 0 <= i < rest.len() implies k.has(#[trigger] rest[i]) by {
            assert(rest[i] == s[i + 1]);
        }
        lemma_words_of_none(rest, k);
    }
}

// ---- Git's configuration --------------------------------------------------

/// A header is a line that starts with a bracket.
pub proof fn law_headers_start_with_a_bracket(line: Seq<char>)
    ensures
        is_header(seq!['['] + line),
        line.len() == 0 || line[0] != '[' ==> !is_header(line),
{
}

/// The header of `origin` is two words in its brackets, `remote` and `"origin"`, in
/// any case.
pub proof fn law_origin_header_has_two_words(line: Seq<char>)
    ensures
        ({
            let parts = words(trim(line, Class::Bracket), Class::White);
            is_origin_header(line) <==> parts.len() == 2 && to_lower(parts[0]) == "remote"@
                && to_lower(parts[1]) == "\"origin\""@
        }),
{
    reveal_strlit("remote \"origin\"");
    reveal_strlit("remote");
    reveal_strlit("\"origin\"");
    reveal_strlit(" ");
    let parts = words(trim(line, Class::Bracket), Class::White);
    let target = "remote \"origin\""@;
    assert(to_lower(target) =~= target);
    assert(" "@ =~= seq![' ']);
    lemma_words(trim(line, Class::Bracket), Class::White);
    let text = join(parts, " "@);
    if parts.len() == 0 {
        assert(to_lower(text).len() == 0);
    } else if parts.len() == 1 {
        assert(text == parts[0]);
        if to_lower(text) == target {
            assert(to_lower(text)[6] == ' ');
            assert(text[6] == ' ');
            assert(!Class::White.has(parts[0][6]));
        }
    } else {
        let (head, tail) = (parts.take(1), parts.skip(1));
        let (w, rest) = (parts[0], join(tail, " "@));
        assert(head + tail =~= parts);
        assert(head =~= seq![w]);
        law_join_puts_separators_between(head, tail, w, " "@);
        assert(text =~= w + seq![' '] + rest);
        if to_lower(text) == target {
            let n = w.len() as int;
            assert(text[n] == ' ');
            assert(to_lower(text)[n] == ' ');
            assert(n == 6);
            assert forall|i: int| 0 <= i < 6 implies #[trigger] to_lower(w)[i] == "remote"@[i] by {
                assert(to_lower(text)[i] == to_lower(w)[i]);
            }
            assert(to_lower(w) =~= "remote"@);
            if parts.len() == 2 {
                assert(tail =~= seq![parts[1]]);
                assert forall|i: int| 0 <= i < rest.len() implies #[trigger] to_lower(rest)[i]
                    == "\"origin\""@[i] by {
                    assert(to_lower(text)[i + 7] == to_lower(rest)[i]);
                }
                assert(to_lower(rest) =~= "\"origin\""@);
            } else {
                let (second, more) = (tail.take(1), tail.skip(1));
                assert(second + more =~= tail);
                assert(second =~= seq![parts[1]]);
                law_join_puts_separators_between(second, more, parts[1], " "@);
                let m = n + 1 + parts[1].len();
                assert(rest[parts[1].len() as int] == ' ');
                assert(text[m] == ' ');
                assert(to_lower(text)[m] == ' ');
            }
        }
        if parts.len() == 2 && to_lower(w) == "remote"@ && to_lower(parts[1]) == "\"origin\""@ {
            assert(tail =~= seq![parts[1]]);
            assert(rest == parts[1]);
            assert(to_lower(w).len() == 6 && to_lower(rest).len() == 8);
            assert(text.len() == 15);
            assert forall|i: int| 0 <= i < 15 implies #[trigger] to_lower(text)[i] == target[i] by {
                if i < 6 {
                    assert(to_lower(text)[i] == to_lower(w)[i]);
                } else if i > 6 {
                    assert(to_lower(text)[i] == to_lower(rest)[i - 7]);
                }
            }
            assert(to_lower(text) =~= target);
        }
    }
}

/// A header in brackets heads the section of `origin` where its two words say so,
/// with white space where one likes; a header of one word never does.
pub proof fn law_origin_header_as_written(
    a: Seq<char>,
    first: Seq<char>,
    b: Seq<char>,
    second: Seq<char>,
    c: Seq<char>,
)
    requires
        all_in(a, Class::White),
        all_in(b, Class::White),
        all_in(c, Class::White),
        b.len() > 0,
        none_in(first, Class::White) && none_in(first, Class::Bracket),
        none_in(second, Class::White) && none_in(second, Class::Bracket),
        first.len() > 0,
        second.len() > 0,
    ensures
        is_origin_header(seq!['['] + (a + first + b + second + c) + seq![']']) <==> to_lower(first)
            == "remote"@ && to_lower(second) == "\"origin\""@,
        !is_origin_header(seq!['['] + (a + first + c) + seq![']']),
{
    lemma_bracketed(a + first + b + second + c);
    lemma_bracketed(a + first + c);
    law_origin_header_has_two_words(seq!['['] + (a + first + b + second + c) + seq![']']);
    law_origin_header_has_two_words(seq!['['] + (a + first + c) + seq![']']);
    lemma_spaced(a, first, c);
    let gap = b.drop_last();
    assert(b =~= gap.push(b.last()));
    assert(a + first + b + second + c =~= (a + first + gap) + seq![b.last()] + (second + c));
    assert(all_in(gap, Class::White)) by {
        assert forall|i: int| 0 <= i < gap.len() implies Class::White.has(#[trigger] gap[i]) by {
            assert(gap[i] == b[i]);
        }
    }
    assert(b.last() == b[b.len() - 1]);
    lemma_spaced(a, first, gap);
    let none = Seq::<char>::empty();
    lemma_spaced(none, second, c);
    assert(none + second + c =~= second + c);
    law_words_stand_between_separators(a + first + gap, b.last(), second + c, Class::White);
    assert(words(a + first + b + second + c, Class::White) =~= seq![first, second]);
}

/// Brackets round a text come off.
proof fn lemma_bracketed(s: Seq<char>)
    requires
        s.len() > 0,
        !Class::Bracket.has(s.first()),
        !Class::Bracket.has(s.last()),
    ensures
        trim(seq!['['] + s + seq![']'], Class::Bracket) == s,
{
    law_trim_takes_off_the_ends(seq!['['], s, seq![']'], Class::Bracket);
}

/// White space round a word leaves the word.
proof fn lemma_spaced(a: Seq<char>, w: Seq<char>, b: Seq<char>)
    requires
        all_in(a, Class::White),
        all_in(b, Class::White),
        none_in(w, Class::White),
        w.len() > 0,
    ensures
        words(a + w + b, Class::White) == seq![w],
    decreases a.len() + b.len(),
{
    let s = a + w + b;
    let none = Seq::<char>::empty();
    if a.len() > 0 {
        let rest = a.drop_first();
        assert(all_in(rest, Class::White)) by {
            assert forall|i: int| 0 <= i < rest.len() implies Class::White.has(
                #[trigger] rest[i],
            ) by {
                assert(rest[i] == a[i + 1]);
            }
        }
        lemma_spaced(rest, w, b);
        assert(s =~= none + seq![a[0]] + (rest + w + b));
        law_words_stand_between_separators(none, a[0], rest + w + b, Class::White);
        assert(words(s, Class::White) =~= seq![w]);
    } else if b.len() > 0 {
        let rest = b.drop_first();
        assert(all_in(rest, Class::White)) by {
            assert forall|i: int| 0 <= i < rest.len() implies Class::White.has(
                #[trigger] rest[i],
            ) by {
                assert(rest[i] == b[i + 1]);
            }
        }
        lemma_one_word(w, Class::White);
        lemma_words_of_none(rest, Class::White);
        assert(s =~= w + seq![b[0]] + rest);
        law_words_stand_between_separators(w, b[0], rest, Class::White);
        assert(words(s, Class::White) =~= seq![w]);
    } else {
        assert(s =~= w);
        lemma_one_word(w, Class::White);
    }
}

/// A setting reads as `url` in any case, an equals sign and the value, with white
/// space where one likes; the value may hold equals signs.
pub proof fn law_url_settings(
    a: Seq<char>,
    name: Seq<char>,
    b: Seq<char>,
    c: Seq<char>,
    value: Seq<char>,
    d: Seq<char>,
)
    requires
        all_in(a, Class::White),
        all_in(b, Class::White),
        all_in(c, Class::White),
        all_in(d, Class::White),
        !name.contains('='),
        name.len() > 0 ==> !white_space(name.first()) && !white_space(name.last()),
        value.len() > 0 ==> !white_space(value.first()) && !white_space(value.last()),
    ensures
        url_value(a + name + b + seq!['='] + (c + value + d)) == if to_lower(name) == seq![
            'u',
            'r',
            'l',
        ] && value.len() > 0 {
            Some(value)
        } else {
            None
        },
        url_value(a + name + b) is None,
{
    reveal_strlit("url");
    let key = a + name + b;
    let line = key + seq!['='] + (c + value + d);
    assert forall|i: int| 0 <= i < key.len() implies key[i] != '=' by {
        if i < a.len() {
            assert(key[i] == a[i]);
        } else if i < a.len() + name.len() {
            assert(key[i] == name[i - a.len()]);
        } else {
            assert(key[i] == b[i - a.len() - name.len()]);
        }
    }
    let k = key.len() as int;
    assert(line[k] == '=');
    assert forall|i: int| 0 <= i < k implies line[i] != '=' by {
        assert(line[i] == key[i]);
    }
    lemma_find_unique(line, '=', k);
    lemma_find_unique(key, '=', k);
    assert(line.take(k) =~= key);
    assert(line.skip(k + 1) =~= c + value + d);
    law_trim_takes_off_the_ends(a, name, b, Class::White);
    law_trim_takes_off_the_ends(c, value, d, Class::White);
    assert("url"@ =~= seq!['u', 'r', 'l']);
    assert(to_lower("url"@) =~= seq!['u', 'r', 'l']);
}

/// A header starts a section and ends the one before it: what the lines after it give
/// depends on that header alone, and on the lines before it only where they already
/// gave a URL.
pub proof fn law_headers_part_sections(
    before: Seq<Seq<char>>,
    head: Seq<char>,
    after: Seq<Seq<char>>,
    inside: bool,
)
    requires
        is_header(trim(head, Class::White)),
    ensures
        scan(before + seq![head] + after, inside) == match scan(before, inside) {
            Some(url) => Some(url),
            None => scan(after, is_origin_header(trim(head, Class::White))),
        },
    decreases before.len(),
{
    let all = before + seq![head] + after;
    if before.len() == 0 {
        assert(all.first() == head);
        assert(all.drop_first() =~= after);
    } else {
        assert(all.first() == before.first());
        assert(all.drop_first() =~= before.drop_first() + seq![head] + after);
        let line = trim(before.first(), Class::White);
        let now = if is_header(line) {
            is_origin_header(line)
        } else {
            inside
        };
        law_headers_part_sections(before.drop_first(), head, after, now);
    }
}

/// Inside the section of `origin` the first setting of a URL counts; outside it none
/// does.
pub proof fn law_first_url_of_origin_counts(
    before: Seq<Seq<char>>,
    line: Seq<char>,
    after: Seq<Seq<char>>,
    url: Seq<char>,
)
    requires
        forall|i: int|
            0 <= i < before.len() ==> !is_header(trim(#[trigger] before[i], Class::White)),
        !is_header(trim(line, Class::White)),
        url_value(trim(line, Class::White)) == Some(url),
    ensures
        (forall|i: int|
            0 <= i < before.len() ==> url_value(trim(#[trigger] before[i], Class::White)) is None)
            ==> scan(before + seq![line] + after, true) == Some(url),
        scan(before + seq![line], false) is None,
    decreases before.len(),
{
    let all = before + seq![line] + after;
    let outside = before + seq![line];
    if before.len() == 0 {
        assert(all.first() == line);
        assert(outside.first() == line);
        assert(outside.drop_first() =~= Seq::<Seq<char>>::empty());
        assert(scan(outside.drop_first(), false) is None);
    } else {
        let rest = before.drop_first();
        assert(before.first() == before[0]);
        assert forall|i: int| 0 <= i < rest.len() implies !is_header(
            trim(#[trigger] rest[i], Class::White),
        ) by {
            assert(rest[i] == before[i + 1]);
        }
        law_first_url_of_origin_counts(rest, line, after, url);
        assert(all.first() == before.first());
        assert(all.drop_first() =~= rest + seq![line] + after);
        assert(outside.first() == before.first());
        assert(outside.drop_first() =~= rest + seq![line]);
        if forall|i: int|
            0 <= i < before.len() ==> url_value(trim(#[trigger] before[i], Class::White)) is None {
            assert(url_value(trim(before[0], Class::White)) is None);
            assert forall|i: int| 0 <= i < rest.len() implies url_value(
                trim(#[trigger] rest[i], Class::White),
            ) is None by {
                assert(rest[i] == before[i + 1]);
            }
        }
    }
}

/// A configuration is read line by line: the URL under the header of `origin` is
/// found, whatever stands before the header, so long as no URL of `origin` does, and
/// whatever stands after it.
pub proof fn law_origin_is_found_in_the_configuration(
    before: Seq<char>,
    head: Seq<char>,
    line: Seq<char>,
    after: Seq<char>,
    url: Seq<char>,
)
    requires
        config_url(before) is None,
        !head.contains('\n'),
        !line.contains('\n'),
        is_header(trim(head, Class::White)),
        is_origin_header(trim(head, Class::White)),
        !is_header(trim(line, Class::White)),
        url_value(trim(line, Class::White)) == Some(url),
    ensures
        config_url(
            before + seq!['\n'] + (head + seq!['\n'] + (line + seq!['\n'] + after)),
        ) == Some(url),
{
    let end = line + seq!['\n'] + after;
    let rest = head + seq!['\n'] + end;
    law_pieces_stand_between_separators(before, '\n', rest);
    law_pieces_stand_between_separators(head, '\n', end);
    law_pieces_stand_between_separators(line, '\n', after);
    let lines = split(before, '\n');
    let tail = seq![line] + split(after, '\n');
    assert(split(before + seq!['\n'] + rest, '\n') =~= lines + seq![head] + tail);
    law_headers_part_sections(lines, head, tail, false);
    let none = Seq::<Seq<char>>::empty();
    assert(none + seq![line] + split(after, '\n') =~= tail);
    law_first_url_of_origin_counts(none, line, split(after, '\n'), url);
}

} // verus!
