//! Remote path handling: splitting a `host:path` source descriptor, joining
//! and shortening slash-separated remote paths, and building the descriptor
//! the mirror process is given.

use vstd::prelude::*;
use vstd::string::StringExecFns;
use crate::text::{str_chars, subvec, chars_to_string, trimmed, trim_vec};
use crate::progress::{basename, basename_exec};

verus! {

/// The folder name one line of the remote listing contributes: the final
/// path segment of the trimmed line, nothing for a blank line.
pub open spec fn listing_name(line: Seq<char>) -> Option<Seq<char>> {
    if trimmed(line).len() == 0 {
        None
    } else {
        basename(trimmed(line))
    }
}

/// The folder names the remote listing's lines contribute, in order.
pub open spec fn listing_names(lines: Seq<Seq<char>>) -> Seq<Seq<char>>
    decreases lines.len(),
{
    if lines.len() == 0 {
        Seq::empty()
    } else {
        listing_names(lines.drop_last()) + (match listing_name(lines.last()) {
            Some(n) => seq![n],
            None => Seq::empty(),
        })
    }
}

/// Turns the raw lines of the remote listing command into folder names:
/// each line is trimmed, blank lines are dropped, and the final path
/// segment of what remains is the name.
#[verifier::loop_isolation(false)]
pub fn folder_names_from_listing(lines: &Vec<String>) -> (r: Vec<String>)
    ensures
        r.deep_view() == listing_names(lines.deep_view()),
{
    let ghost dv = lines.deep_view();
    let mut out: Vec<String> = Vec::new();
    let mut i: usize = 0;
    proof {
        assert(dv.take(0) =~= Seq::<Seq<char>>::empty());
        assert(out.deep_view() =~= listing_names(dv.take(0)));
    }
    while i < lines.len()
        invariant
            i <= lines@.len(),
            dv.len() == lines@.len(),
            out.deep_view() == listing_names(dv.take(i as int)),
        decreases lines@.len() - i,
    {
        let v = str_chars(lines[i].as_str());
        let t = trim_vec(&v);
        proof {
            assert(dv[i as int] == lines@[i as int]@);
            assert(dv.take(i as int + 1).drop_last() =~= dv.take(i as int));
            assert(dv.take(i as int + 1).last() == dv[i as int]);
        }
        if t.len() > 0 {
            match basename_exec(&t) {
                Some(b) => {
                    out.push(chars_to_string(&b));
                    proof {
                        assert(out.deep_view() =~= listing_names(dv.take(i as int + 1)));
                    }
                },
                None => {
                    proof {
                        assert(out.deep_view() =~= listing_names(dv.take(i as int + 1)));
                    }
                },
            }
        } else {
            proof {
                assert(out.deep_view() =~= listing_names(dv.take(i as int + 1)));
            }
        }
        i += 1;
    }
    proof {
        assert(dv.take(dv.len() as int) =~= dv);
    }
    out
}

/// Index of the first occurrence of `c` at or after `i`.
pub open spec fn find_char_from(s: Seq<char>, c: char, i: int) -> Option<int>
    decreases s.len() - i,
{
    if i < 0 || i >= s.len() {
        None
    } else if s[i] == c {
        Some(i)
    } else {
        find_char_from(s, c, i + 1)
    }
}

pub open spec fn find_char(s: Seq<char>, c: char) -> Option<int> {
    find_char_from(s, c, 0)
}

/// Index of the last occurrence of `c`.
pub open spec fn rfind_char(s: Seq<char>, c: char) -> Option<int>
    decreases s.len(),
{
    if s.len() == 0 {
        None
    } else if s.last() == c {
        Some(s.len() - 1)
    } else {
        rfind_char(s.drop_last(), c)
    }
}

/// Splits a remote source given as `host:path` at the first colon; a source
/// without a colon is a bare host with an empty path (the remote home).
#[verifier::loop_isolation(false)]
pub fn split_remote_source(source: &str) -> (r: (String, String))
    ensures
        (match find_char(source@, ':') {
            Some(i) => r.0@ == source@.take(i) && r.1@ == source@.skip(i + 1),
            None => r.0@ == source@ && r.1@ == Seq::<char>::empty(),
        }),
{
    let v = str_chars(source);
    let n = v.len();
    let mut i: usize = 0;
    while i < n
        invariant
            i <= n,
            n == v@.len(),
            find_char(source@, ':') == find_char_from(source@, ':', i as int),
        decreases n - i,
    {
        if v[i] == ':' {
            let host = chars_to_string(&subvec(&v, 0, i));
            let path = chars_to_string(&subvec(&v, i + 1, n));
            proof {
                assert(v@.subrange(0, i as int) =~= source@.take(i as int));
                assert(v@.subrange(i as int + 1, n as int) =~= source@.skip(i as int + 1));
            }
            return (host, path);
        }
        i += 1;
    }
    let host = source.to_owned();
    (host, String::new())
}

/// Appends `folder` to a slash-separated path; an empty path means the
/// remote home, so the folder stands alone.
pub fn join_path(current: &str, folder: &str) -> (r: String)
    ensures
        current@.len() == 0 ==> r@ == folder@,
        current@.len() > 0 ==> r@ == current@ + "/"@ + folder@,
{
    if current.is_empty() {
        folder.to_owned()
    } else {
        let mut out = current.to_owned();
        out.append("/");
        out.append(folder);
        out
    }
}

/// The path one level up: everything before the last slash, or the base
/// path when there is no slash left to cut at.
#[verifier::loop_isolation(false)]
pub fn parent_path(current: &str, base: &str) -> (r: String)
    ensures
        (match rfind_char(current@, '/') {
            Some(i) => r@ == current@.take(i),
            None => r@ == base@,
        }),
{
    let v = str_chars(current);
    proof {
        assert(v@.take(v@.len() as int) =~= v@);
    }
    let mut j: usize = v.len();
    while j > 0 && v[j - 1] != '/'
        invariant
            j <= v@.len(),
            rfind_char(current@, '/') == rfind_char(current@.take(j as int), '/'),
        decreases j,
    {
        proof {
            assert(current@.take(j as int).last() == current@[j as int - 1]);
            assert(current@.take(j as int).drop_last() =~= current@.take(j as int - 1));
        }
        j -= 1;
    }
    if j == 0 {
        base.to_owned()
    } else {
        proof {
            assert(current@.take(j as int).last() == current@[j as int - 1]);
            assert(rfind_char(current@, '/') == Some(j as int - 1));
            assert(v@.subrange(0, j as int - 1) =~= current@.take(j as int - 1));
        }
        chars_to_string(&subvec(&v, 0, j - 1))
    }
}

/// The descriptor handed to the mirror process: `host:path`.
pub fn remote_descriptor(host: &str, path: &str) -> (r: String)
    ensures
        r@ == host@ + ":"@ + path@,
{
    let mut out = host.to_owned();
    out.append(":");
    out.append(path);
    out
}

} // verus!
