//! Building remote-repository URLs from command-line parts, and
//! turning a URL back into the path segments a checkout lives under.

use vstd::prelude::*;
use vstd::string::StrSliceExecFns;
use vstd::string::StringExecFns;

use crate::db::find_char;
use crate::db::lemma_find_char_spec;
use crate::db::lemma_find_char_witness;
use crate::db::split_on;
use crate::text;
use crate::text::trim_spec;

verus! {

/// A URL scheme the tool recognizes.
#[derive(Clone, Copy, Debug, PartialEq, Eq, Structural)]
pub enum UrlScheme {
    Ssh,
    Git,
    Rsync,
    File,
    Http,
    Https,
}

/// Why a URL could not be built or taken apart.
#[derive(Clone, Copy, Debug, PartialEq, Eq, Structural)]
pub enum UrlError {
    /// No parts were given to build a remote URL from.
    NoParts,
    /// File URLs are not supported.
    FileUrlUnsupported,
    /// An empty URL cannot be converted to a path.
    EmptyUrl,
    /// The URL has no scheme or host separator.
    UnsupportedUrl,
    /// The URL's shape after its scheme is invalid.
    InvalidUrl,
    /// Too few parts remain in the URL to form a path.
    NotEnoughParts,
}

/// The scheme named by `s`, if any.
pub open spec fn scheme_of(s: Seq<char>) -> Option<UrlScheme> {
    if s == "ssh"@ {
        Some(UrlScheme::Ssh)
    } else if s == "git"@ {
        Some(UrlScheme::Git)
    } else if s == "rsync"@ {
        Some(UrlScheme::Rsync)
    } else if s == "file"@ {
        Some(UrlScheme::File)
    } else if s == "http"@ {
        Some(UrlScheme::Http)
    } else if s == "https"@ {
        Some(UrlScheme::Https)
    } else {
        None
    }
}

impl UrlScheme {
    /// Parses a scheme name.
    pub fn from_str(s: &str) -> (r: Option<UrlScheme>)
        ensures
            r == scheme_of(s@),
    {
        let v = text::chars_of(s);
        if crate::db::chars_cmp(v.as_slice(), text::chars_of("ssh").as_slice()) == 0 {
            Some(UrlScheme::Ssh)
        } else if crate::db::chars_cmp(v.as_slice(), text::chars_of("git").as_slice()) == 0 {
            Some(UrlScheme::Git)
        } else if crate::db::chars_cmp(v.as_slice(), text::chars_of("rsync").as_slice()) == 0 {
            Some(UrlScheme::Rsync)
        } else if crate::db::chars_cmp(v.as_slice(), text::chars_of("file").as_slice()) == 0 {
            Some(UrlScheme::File)
        } else if crate::db::chars_cmp(v.as_slice(), text::chars_of("http").as_slice()) == 0 {
            Some(UrlScheme::Http)
        } else if crate::db::chars_cmp(v.as_slice(), text::chars_of("https").as_slice()) == 0 {
            Some(UrlScheme::Https)
        } else {
            None
        }
    }
}

/// Whether `c` occurs in `s`.
pub open spec fn contains_char(s: Seq<char>, c: char) -> bool {
    exists|i: int| 0 <= i < s.len() && s[i] == c
}

/// `s` ends with `suffix`.
pub open spec fn ends_with(s: Seq<char>, suffix: Seq<char>) -> bool {
    s.len() >= suffix.len() && s.skip(s.len() - suffix.len()) == suffix
}

/// `s`, guaranteed to end in `.git`.
pub open spec fn with_git_suffix(s: Seq<char>) -> Seq<char> {
    if ends_with(s, ".git"@) {
        s
    } else {
        s + ".git"@
    }
}

/// Each part that does not trim to nothing, followed by `sep`,
/// appended onto `acc`.
pub open spec fn fold_parts(parts: Seq<Seq<char>>, acc: Seq<char>, sep: Seq<char>) -> Seq<char>
    decreases parts.len(),
{
    if parts.len() == 0 {
        acc
    } else {
        fold_parts(
            parts.drop_first(),
            if trim_spec(parts[0]).len() > 0 {
                acc + parts[0] + sep
            } else {
                acc
            },
            sep,
        )
    }
}

/// The parts joined onto `to` with `sep` after each, and one final
/// character dropped — the trailing separator when any part was
/// appended.
pub open spec fn join_strs_spec(parts: Seq<Seq<char>>, to: Seq<char>, sep: Seq<char>) -> Seq<
    char,
> {
    let f = fold_parts(parts, to, sep);
    if f.len() > 0 {
        f.drop_last()
    } else {
        f
    }
}

/// Appends every part that does not trim to nothing onto `to`,
/// separated by `separator`, dropping the trailing character.
pub fn join_strs(from: &[String], to: String, separator: &str) -> (r: String)
    ensures
        r@ == join_strs_spec(from.deep_view(), to@, separator@),
{
    let ghost dv = from.deep_view();
    let ghost sep = separator@;
    let ghost to0 = to@;
    let mut acc = to;
    let mut i: usize = 0;
    proof {
        assert(dv.skip(0) =~= dv);
    }
    while i < from.len()
        invariant
            dv == from.deep_view(),
            sep == separator@,
            i <= from.len(),
            dv.len() == from.len(),
            fold_parts(dv, to0, sep) == fold_parts(dv.skip(i as int), acc@, sep),
        decreases from.len() - i,
    {
        let fv = text::chars_of(from[i].as_str());
        proof {
            assert(fv@.subrange(0, fv@.len() as int) =~= fv@);
            assert(dv[i as int] =~= from@[i as int]@);
        }
        let (a, b) = text::trim_range(fv.as_slice(), 0, fv.len());
        let ghost before = acc@;
        if a < b {
            acc.append(from[i].as_str());
            acc.append(separator);
        }
        proof {
            assert(dv.skip(i as int).drop_first() =~= dv.skip(i + 1));
            assert(dv.skip(i as int)[0] == dv[i as int]);
            if a < b {
                assert(acc@ =~= before + dv[i as int] + sep);
            }
        }
        i += 1;
    }
    proof {
        assert(dv.skip(dv.len() as int) =~= Seq::<Seq<char>>::empty());
    }
    let n = acc.as_str().unicode_len();
    if n > 0 {
        let r = acc.as_str().substring_char(0, n - 1).to_owned();
        proof {
            assert(r@ =~= acc@.drop_last());
        }
        r
    } else {
        acc
    }
}

/// Appends `.git` to `target` unless it already ends with it.
pub fn set_git_suffix(target: &mut String)
    ensures
        final(target)@ == with_git_suffix(old(target)@),
{
    proof {
        reveal_strlit(".git");
    }
    let v = text::chars_of(target.as_str());
    let n = v.len();
    if n >= 4 && v[n - 4] == '.' && v[n - 3] == 'g' && v[n - 2] == 'i' && v[n - 1] == 't' {
        proof {
            assert(v@.skip(n - 4) =~= ".git"@);
        }
    } else {
        target.append(".git");
        proof {
            if n >= 4 {
                let tail = old(target)@.skip(n - 4);
                assert(tail[0] == v@[n - 4] && tail[1] == v@[n - 3] && tail[2] == v@[n - 2]
                    && tail[3] == v@[n - 1]);
                assert(tail != ".git"@);
            }
        }
    }
}

/// What precedes the first `c` of `s`, or all of `s` when it has
/// none.
pub open spec fn left_of_spec(s: Seq<char>, c: char) -> Seq<char> {
    let j = find_char(s, c, 0);
    if j < 0 {
        s
    } else {
        s.take(j)
    }
}

/// What follows the first `c` of `s`, or all of `s` when it has none.
pub open spec fn right_of_spec(s: Seq<char>, c: char) -> Seq<char> {
    let j = find_char(s, c, 0);
    if j < 0 {
        s
    } else {
        s.skip(j + 1)
    }
}

/// What precedes the first `c` in `s` (all of `s` when absent).
pub fn left_of<'a>(s: &'a str, c: char) -> (r: &'a str)
    ensures
        r@ == left_of_spec(s@, c),
{
    let v = text::chars_of(s);
    match crate::db::find_from(v.as_slice(), 0, c) {
        Some(j) => {
            proof {
                lemma_find_char_witness(s@, c, 0, j as int);
            }
            s.substring_char(0, j)
        },
        None => {
            proof {
                lemma_find_char_spec(s@, c, 0);
                if find_char(s@, c, 0) >= 0 {
                    assert(s@[find_char(s@, c, 0)] == c);
                }
            }
            s
        },
    }
}

/// What follows the first `c` in `s` (all of `s` when absent).
pub fn right_of<'a>(s: &'a str, c: char) -> (r: &'a str)
    ensures
        r@ == right_of_spec(s@, c),
{
    let v = text::chars_of(s);
    match crate::db::find_from(v.as_slice(), 0, c) {
        Some(j) => {
            proof {
                lemma_find_char_witness(s@, c, 0, j as int);
            }
            let n = s.unicode_len();
            s.substring_char(j + 1, n)
        },
        None => {
            proof {
                lemma_find_char_spec(s@, c, 0);
                if find_char(s@, c, 0) >= 0 {
                    assert(s@[find_char(s@, c, 0)] == c);
                }
            }
            s
        },
    }
}

/// `s` names a known scheme before its first colon.
pub open spec fn starts_with_scheme_spec(s: Seq<char>) -> bool {
    find_char(s, ':', 0) >= 0 && scheme_of(s.take(find_char(s, ':', 0))) is Some
}

/// Whether `s` begins with a known scheme and a colon.
pub fn starts_with_scheme(s: &str) -> (r: bool)
    ensures
        r == starts_with_scheme_spec(s@),
{
    let v = text::chars_of(s);
    match crate::db::find_from(v.as_slice(), 0, ':') {
        Some(j) => {
            proof {
                lemma_find_char_witness(s@, ':', 0, j as int);
            }
            let head = s.substring_char(0, j);
            UrlScheme::from_str(head).is_some()
        },
        None => {
            proof {
                lemma_find_char_spec(s@, ':', 0);
                if find_char(s@, ':', 0) >= 0 {
                    assert(s@[find_char(s@, ':', 0)] == ':');
                }
            }
            false
        },
    }
}

/// The URL that `from_parts` builds for `remote`, or the error it
/// reports.
pub open spec fn from_parts_spec(remote: Seq<Seq<char>>) -> Result<Seq<char>, UrlError> {
    if remote.len() == 0 {
        Err(UrlError::NoParts)
    } else if remote.len() == 1 {
        Ok(remote[0])
    } else if remote[0].len() > 0 && (remote[0][0] == '/' || remote[0][0] == '~') {
        Err(UrlError::FileUrlUnsupported)
    } else {
        match scheme_of(remote[0]) {
            Some(UrlScheme::File) => Err(UrlError::FileUrlUnsupported),
            Some(UrlScheme::Ssh) | Some(UrlScheme::Rsync) => {
                let host = if contains_char(remote[1], '@') {
                    remote[1]
                } else {
                    "git@"@ + remote[1]
                };
                Ok(
                    with_git_suffix(
                        join_strs_spec(
                            remote.skip(2),
                            remote[0] + "://"@ + host + "/"@,
                            "/"@,
                        ),
                    ),
                )
            },
            Some(_) => Ok(
                with_git_suffix(
                    join_strs_spec(
                        remote.skip(2),
                        remote[0] + "://"@ + remote[1] + "/"@,
                        "/"@,
                    ),
                ),
            ),
            None => {
                if starts_with_scheme_spec(remote[0]) {
                    Ok(
                        with_git_suffix(
                            join_strs_spec(remote.skip(1), remote[0] + "/"@, "/"@),
                        ),
                    )
                } else {
                    Ok(
                        with_git_suffix(
                            join_strs_spec(
                                remote.skip(1),
                                "https://"@ + remote[0] + "/"@,
                                "/"@,
                            ),
                        ),
                    )
                }
            },
        }
    }
}

/// Builds a remote URL from the given parts: one part is returned
/// verbatim; otherwise the first part gives the scheme (`https` is
/// assumed when it names none), the next the host (SSH and rsync gain
/// a `git@` user when none is set), and the rest the path, with a
/// `.git` suffix ensured. File URLs are refused.
pub fn from_parts(remote: &[String]) -> (r: Result<String, UrlError>)
    ensures
        match r {
            Ok(u) => from_parts_spec(remote.deep_view()) == Ok::<Seq<char>, UrlError>(u@),
            Err(e) => from_parts_spec(remote.deep_view()) == Err::<Seq<char>, UrlError>(e),
        },
{
    let ghost dv = remote.deep_view();
    if remote.len() == 0 {
        return Err(UrlError::NoParts);
    }
    proof {
        assert(dv[0] =~= remote@[0]@);
    }
    if remote.len() == 1 {
        return Ok(remote[0].clone());
    }
    proof {
        assert(dv[1] =~= remote@[1]@);
    }
    let r0 = text::chars_of(remote[0].as_str());
    if r0.len() > 0 && (r0[0] == '/' || r0[0] == '~') {
        return Err(UrlError::FileUrlUnsupported);
    }
    let scheme = UrlScheme::from_str(remote[0].as_str());
    match scheme {
        Some(UrlScheme::File) => Err(UrlError::FileUrlUnsupported),
        Some(UrlScheme::Ssh) | Some(UrlScheme::Rsync) => {
            let mut url = String::new();
            url.append(remote[0].as_str());
            url.append("://");
            let r1 = text::chars_of(remote[1].as_str());
            let has_at = crate::db::find_from(r1.as_slice(), 0, '@');
            if has_at.is_none() {
                url.append("git@");
                proof {
                    if contains_char(dv[1], '@') {
                        let w = choose|i: int| 0 <= i < dv[1].len() && dv[1][i] == '@';
                        assert(r1@[w] == '@');
                    }
                }
            } else {
                proof {
                    let j = has_at.unwrap();
                    assert(dv[1][j as int] == '@');
                }
            }
            url.append(remote[1].as_str());
            url.append("/");
            let ghost base = url@;
            let tail = vstd::slice::slice_subrange(remote, 2, remote.len());
            proof {
                assert(tail.deep_view() =~~= dv.skip(2));
                if contains_char(dv[1], '@') {
                    assert(base =~= dv[0] + "://"@ + dv[1] + "/"@);
                } else {
                    assert(base =~= dv[0] + "://"@ + ("git@"@ + dv[1]) + "/"@);
                }
            }
            let mut url = join_strs(tail, url, "/");
            set_git_suffix(&mut url);
            Ok(url)
        },
        Some(_) => {
            let mut url = String::new();
            url.append(remote[0].as_str());
            url.append("://");
            url.append(remote[1].as_str());
            url.append("/");
            let ghost base = url@;
            let tail = vstd::slice::slice_subrange(remote, 2, remote.len());
            proof {
                assert(tail.deep_view() =~~= dv.skip(2));
                assert(base =~= dv[0] + "://"@ + dv[1] + "/"@);
            }
            let mut url = join_strs(tail, url, "/");
            set_git_suffix(&mut url);
            Ok(url)
        },
        None => {
            let mut url = String::new();
            if starts_with_scheme(remote[0].as_str()) {
                url.append(remote[0].as_str());
            } else {
                url.append("https://");
                url.append(remote[0].as_str());
            }
            url.append("/");
            let ghost base = url@;
            let tail = vstd::slice::slice_subrange(remote, 1, remote.len());
            proof {
                assert(tail.deep_view() =~~= dv.skip(1));
                if starts_with_scheme_spec(dv[0]) {
                    assert(base =~= dv[0] + "/"@);
                } else {
                    assert(base =~= "https://"@ + dv[0] + "/"@);
                }
            }
            let mut url = join_strs(tail, url, "/");
            set_git_suffix(&mut url);
            Ok(url)
        },
    }
}

/// One path segment, cleaned: trimmed, a leading `~` stripped, and —
/// on the last segment — a trailing `.git` stripped.
pub open spec fn clean_seg(seg: Seq<char>, is_last: bool) -> Seq<char> {
    let t = trim_spec(seg);
    let t2 = if t.len() > 0 && t[0] == '~' {
        t.drop_first()
    } else {
        t
    };
    if is_last && ends_with(t2, ".git"@) {
        t2.take(t2.len() - 4)
    } else {
        t2
    }
}

/// The first `n` segments cleaned, empty ones dropped.
pub open spec fn cleaned_segs(segs: Seq<Seq<char>>, n: int) -> Seq<Seq<char>>
    decreases n,
{
    if n <= 0 {
        Seq::empty()
    } else {
        let prev = cleaned_segs(segs, n - 1);
        let c = clean_seg(segs[n - 1], n == segs.len());
        if c.len() > 0 {
            prev.push(c)
        } else {
            prev
        }
    }
}

/// The host followed by the cleaned path segments; an error when
/// nothing but the host remains.
pub open spec fn path_of(host: Seq<char>, path_part: Seq<char>) -> Result<
    Seq<Seq<char>>,
    UrlError,
> {
    let segs = split_on(path_part, '/');
    let path = seq![host] + cleaned_segs(segs, segs.len() as int);
    if path.len() <= 1 {
        Err(UrlError::NotEnoughParts)
    } else {
        Ok(path)
    }
}

/// The path segments that `to_path` extracts from `url`, or the error
/// it reports.
pub open spec fn to_path_spec(url: Seq<char>) -> Result<Seq<Seq<char>>, UrlError> {
    let u = trim_spec(url);
    if u.len() == 0 {
        Err(UrlError::EmptyUrl)
    } else {
        let j = find_char(u, ':', 0);
        if j < 0 {
            Err(UrlError::UnsupportedUrl)
        } else {
            let left = u.take(j);
            let right = u.skip(j + 1);
            match scheme_of(left) {
                Some(UrlScheme::File) => Err(UrlError::FileUrlUnsupported),
                Some(_) => {
                    if !crate::db::is_prefix("//"@, right) {
                        Err(UrlError::InvalidUrl)
                    } else {
                        let r2 = right.skip(2);
                        let k = find_char(r2, '/', 0);
                        if k < 0 {
                            Err(UrlError::InvalidUrl)
                        } else {
                            let host = left_of_spec(right_of_spec(r2.take(k), '@'), ':');
                            path_of(host, r2.skip(k + 1))
                        }
                    }
                },
                None => path_of(right_of_spec(left, '@'), right),
            }
        }
    }
}

/// The host and the cleaned segments of `u[off..]`, as owned strings.
fn build_path(tr: &str, u: &[char], off: usize, host: &str) -> (r: Result<Vec<String>, UrlError>)
    requires
        tr@ == u@,
        off <= u@.len(),
    ensures
        match r {
            Ok(parts) => path_of(host@, u@.skip(off as int)) == Ok::<Seq<Seq<char>>, UrlError>(
                parts.deep_view(),
            ),
            Err(e) => path_of(host@, u@.skip(off as int)) == Err::<Seq<Seq<char>>, UrlError>(e),
        },
{
    let ghost pp = u@.skip(off as int);
    let ppv = text::copy_range(u, off, u.len());
    proof {
        assert(ppv@ =~= pp);
        reveal_strlit(".git");
    }
    let spans = crate::db::char_spans(ppv.as_slice(), '/');
    let ghost segs = split_on(pp, '/');
    let mut results: Vec<String> = Vec::new();
    results.push(host.to_owned());
    proof {
        assert(results.deep_view() =~~= seq![host@] + cleaned_segs(segs, 0));
    }
    let mut k: usize = 0;
    while k < spans.len()
        invariant
            tr@ == u@,
            off <= u@.len(),
            u@.len() <= usize::MAX,
            pp == u@.skip(off as int),
            ppv@ == pp,
            segs == split_on(pp, '/'),
            spans@.len() == segs.len(),
            k <= spans.len(),
            forall|m: int|
                0 <= m < spans@.len() ==> (#[trigger] spans@[m]).0 <= spans@[m].1 <= ppv@.len()
                    && ppv@.subrange(spans@[m].0 as int, spans@[m].1 as int) == segs[m],
            results.deep_view() == seq![host@] + cleaned_segs(segs, k as int),
        decreases spans.len() - k,
    {
        let (s0, s1) = (spans[k].0, spans[k].1);
        let (a, b) = text::trim_range(ppv.as_slice(), s0, s1);
        let ghost t = trim_spec(segs[k as int]);
        proof {
            reveal_strlit(".git");
            assert(t == ppv@.subrange(a as int, b as int));
        }
        let a2 = if a < b && ppv[a] == '~' {
            a + 1
        } else {
            a
        };
        proof {
            if a < b && ppv@[a as int] == '~' {
                assert(t[0] == '~');
                assert(t.drop_first() =~= ppv@.subrange(a + 1, b as int));
            }
        }
        let ghost t2 = ppv@.subrange(a2 as int, b as int);
        let is_last = k == spans.len() - 1;
        let ghost wants_git = ends_with(t2, ".git"@);
        let b2 = if is_last && b - a2 >= 4 && ppv[b - 4] == '.' && ppv[b - 3] == 'g' && ppv[b - 2]
            == 'i' && ppv[b - 1] == 't' {
            proof {
                let tl = t2.skip(t2.len() - 4);
                assert(tl.len() == 4);
                assert(tl[0] == ppv@[b - 4] && tl[1] == ppv@[b - 3] && tl[2] == ppv@[b - 2]
                    && tl[3] == ppv@[b - 1]);
                assert(tl =~= ".git"@);
            }
            b - 4
        } else {
            proof {
                if is_last && wants_git {
                    let tail = t2.skip(t2.len() - 4);
                    assert(tail[0] == ppv@[b - 4] && tail[1] == ppv@[b - 3] && tail[2] == ppv@[b
                        - 2] && tail[3] == ppv@[b - 1]);
                    assert(b - a2 >= 4);
                }
            }
            b
        };
        let ghost cs = clean_seg(segs[k as int], is_last);
        proof {
            assert(cs == ppv@.subrange(a2 as int, b2 as int)) by {
                if is_last && wants_git {
                    assert(t2.take(t2.len() - 4) =~= ppv@.subrange(a2 as int, b2 as int));
                }
            }
        }
        if b2 > a2 {
            let ghost prev = results.deep_view();
            proof {
                assert(b <= ppv@.len());
                assert(ppv@.len() + off == u@.len());
            }
            results.push(tr.substring_char(off + a2, off + b2).to_owned());
            proof {
                assert(u@.subrange(off + a2, off + b2) =~= ppv@.subrange(a2 as int, b2 as int));
                assert(results.deep_view() =~~= prev.push(cs));
                assert(seq![host@] + cleaned_segs(segs, k + 1) =~= prev.push(cs));
            }
        } else {
            proof {
                assert(seq![host@] + cleaned_segs(segs, k + 1) =~= results.deep_view());
            }
        }
        k += 1;
    }
    if results.len() <= 1 {
        Err(UrlError::NotEnoughParts)
    } else {
        Ok(results)
    }
}

/// Takes a remote URL apart into the path segments a checkout lives
/// under: the host (user and port dropped), then each path segment
/// trimmed, a leading `~` and a final `.git` stripped, empty segments
/// skipped. Refuses empty, file, and malformed URLs.
#[verifier::rlimit(40)]
pub fn to_path(url: &str) -> (r: Result<Vec<String>, UrlError>)
    ensures
        match r {
            Ok(parts) => to_path_spec(url@) == Ok::<Seq<Seq<char>>, UrlError>(parts.deep_view()),
            Err(e) => to_path_spec(url@) == Err::<Seq<Seq<char>>, UrlError>(e),
        },
{
    let uv = text::chars_of(url);
    proof {
        assert(uv@.subrange(0, uv@.len() as int) =~= uv@);
    }
    let (ta, tb) = text::trim_range(uv.as_slice(), 0, uv.len());
    let tr = url.substring_char(ta, tb);
    let u = text::chars_of(tr);
    let n = u.len();
    if n == 0 {
        return Err(UrlError::EmptyUrl);
    }
    let j = match crate::db::find_from(u.as_slice(), 0, ':') {
        None => {
            proof {
                lemma_find_char_spec(u@, ':', 0);
                if find_char(u@, ':', 0) >= 0 {
                    assert(u@[find_char(u@, ':', 0)] == ':');
                }
            }
            return Err(UrlError::UnsupportedUrl);
        },
        Some(j) => {
            proof {
                lemma_find_char_witness(u@, ':', 0, j as int);
            }
            j
        },
    };
    let ghost left = u@.take(j as int);
    let ghost right = u@.skip(j + 1);
    let left_str = tr.substring_char(0, j);
    match UrlScheme::from_str(left_str) {
        Some(UrlScheme::File) => Err(UrlError::FileUrlUnsupported),
        Some(_) => {
            proof {
                reveal_strlit("//");
            }
            if n - j < 3 || !(u[j + 1] == '/' && u[j + 2] == '/') {
                proof {
                    if crate::db::is_prefix("//"@, right) {
                        assert(right.take(2)[0] == right[0] && right.take(2)[1] == right[1]);
                        assert(right[0] == u@[j + 1]);
                    }
                }
                return Err(UrlError::InvalidUrl);
            }
            proof {
                assert(right.take(2) =~= "//"@);
            }
            let ghost r2 = right.skip(2);
            proof {
                assert(r2 =~= u@.skip(j + 3));
            }
            match crate::db::find_from(u.as_slice(), j + 3, '/') {
                None => {
                    proof {
                        lemma_find_char_spec(r2, '/', 0);
                        if find_char(r2, '/', 0) >= 0 {
                            let f = find_char(r2, '/', 0);
                            assert(r2[f] == u@[j + 3 + f]);
                        }
                    }
                    Err(UrlError::InvalidUrl)
                },
                Some(kabs) => {
                    proof {
                        assert(r2[kabs - (j + 3)] == u@[kabs as int]);
                        assert forall|m: int| 0 <= m < kabs - (j + 3) implies #[trigger] r2[m]
                            != '/' by {
                            assert(r2[m] == u@[j + 3 + m]);
                        }
                        lemma_find_char_witness(r2, '/', 0, kabs - (j + 3));
                        assert(r2.take(kabs - (j + 3)) =~= u@.subrange(j + 3, kabs as int));
                        assert(r2.skip(kabs - (j + 3) + 1) =~= u@.skip(kabs + 1));
                    }
                    let url_left = tr.substring_char(j + 3, kabs);
                    let host_mid = right_of(url_left, '@');
                    let host_str = left_of(host_mid, ':');
                    build_path(tr, u.as_slice(), kabs + 1, host_str)
                },
            }
        },
        None => {
            let host_mid = right_of(left_str, '@');
            proof {
                assert(right =~= u@.skip(j + 1));
            }
            build_path(tr, u.as_slice(), j + 1, host_mid)
        },
    }
}

} // verus!
