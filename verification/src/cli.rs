//! Checks on the command line's arguments.
use vstd::prelude::*;
use vstd::string::StringExecFns;

verus! {

/// `exts` separated by `, `.
pub open spec fn joined(exts: Seq<Seq<char>>) -> Seq<char>
    decreases exts.len(),
{
    if exts.len() == 0 {
        Seq::empty()
    } else if exts.len() == 1 {
        exts[0]
    } else {
        joined(exts.drop_last()) + ", "@ + exts.last()
    }
}

/// The views of `exts`.
pub open spec fn views(exts: Seq<&str>) -> Seq<Seq<char>> {
    exts.map_values(|e: &str| e@)
}

/// The message for a `path` whose extension is not one of `exts`.
pub open spec fn extension_message(path: Seq<char>, exts: Seq<Seq<char>>) -> Seq<char> {
    "'"@ + path + "' does not have a valid extension (expected: "@ + joined(exts) + ")"@
}

/// Whether `ext` is one of `exts`.
pub open spec fn listed(exts: Seq<Seq<char>>, ext: Seq<char>) -> bool {
    exists|i: int| 0 <= i < exts.len() && exts[i] == ext
}

/// The position of the last `c` in `s`, or -1 where there is none.
pub open spec fn last_index_of(s: Seq<char>, c: char) -> int
    decreases s.len(),
{
    if s.len() == 0 {
        -1
    } else if s.last() == c {
        s.len() - 1
    } else {
        last_index_of(s.drop_last(), c)
    }
}

/// `last_index_of(s, c)` is a position of `s` holding `c`, or -1.
pub proof fn lemma_last_index_of_bound(s: Seq<char>, c: char)
    ensures
        -1 <= last_index_of(s, c) < s.len(),
        last_index_of(s, c) >= 0 ==> s[last_index_of(s, c)] == c,
    decreases s.len(),
{
    if s.len() > 0 && s.last() != c {
        lemma_last_index_of_bound(s.drop_last(), c);
    }
}

/// Whether every platform splits `path` into components at `/` alone: it
/// holds no backslash and no drive colon, and does not open with two
/// separators (which name a server share on Windows).
pub open spec fn plain_path(path: Seq<char>) -> bool {
    &&& !path.contains('\\')
    &&& !path.contains(':')
    &&& !(path.len() >= 2 && path[0] == '/' && path[1] == '/')
}

/// The last component of `path`, split at `/`, that is neither empty nor
/// `.`; `None` where there is none.
pub open spec fn last_component(path: Seq<char>) -> Option<Seq<char>>
    decreases path.len(),
{
    let i = last_index_of(path, '/');
    let tail = path.subrange(i + 1, path.len() as int);
    if i + 1 < path.len() && tail != "."@ {
        Some(tail)
    } else if i < 0 {
        None
    } else {
        proof {
            lemma_last_index_of_bound(path, '/');
        }
        last_component(path.subrange(0, i))
    }
}

/// The extension of the file that `path` names: `None` where its last
/// component is `..` or it has none.
pub open spec fn file_extension(path: Seq<char>) -> Option<Seq<char>> {
    match last_component(path) {
        Some(name) => if name == ".."@ {
            None
        } else {
            name_extension(name)
        },
        None => None,
    }
}

/// The extension of a file name: what follows its last dot, where that
/// dot does not open the name.
pub open spec fn name_extension(name: Seq<char>) -> Option<Seq<char>> {
    let i = last_index_of(name, '.');
    if i > 0 {
        Some(name.subrange(i + 1, name.len() as int))
    } else {
        None
    }
}

/// The extension of `path` as `std::path::Path::extension` finds it: the
/// part of the file name after its last dot, if that dot does not open the
/// name. The file name is the last component that is neither empty nor `.`,
/// and there is none where that component is `..`. That is stated for
/// plain paths, which every platform splits at `/` alone; where a path holds
/// a backslash or a colon, or opens with `//`, Windows reads a prefix or
/// other separators into it, and the contract states only that a path
/// without a dot has no extension and that an extension holds no dot.
#[verifier::external_body]
fn path_extension(path: &str) -> (r: Option<String>)
    ensures
        plain_path(path@) ==> match r {
            Some(e) => file_extension(path@) == Some(e@),
            None => file_extension(path@) is None,
        },
        !path@.contains('.') ==> r is None,
        r matches Some(e) ==> !e@.contains('.'),
{
    std::path::Path::new(path).extension().and_then(|e| e.to_str()).map(|e| e.to_owned())
}

/// `exts` separated by `, `.
fn join(exts: &[&str]) -> (r: String)
    ensures
        r@ == joined(views(exts@)),
{
    let mut out = String::new();
    let mut k: usize = 0;
    while k < exts.len()
        invariant
            k <= exts@.len(),
            out@ == joined(views(exts@).take(k as int)),
        decreases exts@.len() - k,
    {
        let ghost v = views(exts@);
        assert(v.take(k + 1).drop_last() =~= v.take(k as int));
        if k > 0 {
            out.append(", ");
        }
        out.append(exts[k]);
        k = k + 1;
    }
    assert(views(exts@).take(k as int) =~= views(exts@));
    out
}

/// Whether `ext` is one of `exts`.
fn is_listed(exts: &[&str], ext: &str) -> (r: bool)
    ensures
        r == listed(views(exts@), ext@),
{
    let wanted = ext.to_owned();
    let mut k: usize = 0;
    while k < exts.len()
        invariant
            k <= exts@.len(),
            wanted@ == ext@,
            forall|i: int| 0 <= i < k ==> views(exts@)[i] != ext@,
        decreases exts@.len() - k,
    {
        let candidate = exts[k].to_owned();
        if candidate == wanted {
            assert(views(exts@)[k as int] == ext@);
            return true;
        }
        k = k + 1;
    }
    false
}

/// Accepts `path` where `ext`, its extension, is one of `exts`; otherwise
/// the message that says which extensions are expected.
pub fn check_extension(exts: &[&str], path: &str, ext: Option<&str>) -> (r: Result<String, String>)
    ensures
        match ext {
            Some(e) if listed(views(exts@), e@) => r is Ok && r->Ok_0@ == path@,
            _ => r is Err && r->Err_0@ == extension_message(path@, views(exts@)),
        },
{
    let ok = match ext {
        Some(e) => is_listed(exts, e),
        None => false,
    };
    if ok {
        Ok(path.to_owned())
    } else {
        let mut msg = String::new();
        msg.append("'");
        msg.append(path);
        msg.append("' does not have a valid extension (expected: ");
        let listed = join(exts);
        msg.append(listed.as_str());
        msg.append(")");
        Err(msg)
    }
}

/// Accepts `path` where its extension is one of `exts`; otherwise the
/// message that says which extensions are expected.
pub fn extension(exts: &[&str], path: &str) -> (r: Result<String, String>)
    ensures
        r matches Ok(p) ==> p@ == path@,
        r matches Err(m) ==> m@ == extension_message(path@, views(exts@)),
        !path@.contains('.') ==> r is Err,
        (forall|i: int| 0 <= i < exts@.len() ==> (#[trigger] exts@[i])@.contains('.')) ==> r is Err,
        plain_path(path@) ==> (r is Ok <==> (file_extension(path@) matches Some(e) && listed(
            views(exts@),
            e,
        ))),
{
    let ext = path_extension(path);
    match ext {
        Some(e) => check_extension(exts, path, Some(e.as_str())),
        None => check_extension(exts, path, None),
    }
}

/// The position of the first `--profile` among `args`, if any.
pub open spec fn first_profile_flag(args: Seq<Seq<char>>) -> Option<int> {
    if exists|i: int| 0 <= i < args.len() && args[i] == "--profile"@ {
        Some(choose|i: int| 0 <= i < args.len() && args[i] == "--profile"@ && forall|j: int| 0 <= j < i ==> args[j] != "--profile"@)
    } else {
        None
    }
}

/// The build profile that `cargo build` uses for `args`: the value after the
/// first `--profile` (`debug` where none follows it), else `release` where
/// `--release` is given, else `debug`.
pub open spec fn spec_profile(args: Seq<Seq<char>>) -> Seq<char> {
    match first_profile_flag(args) {
        Some(i) => if i + 1 < args.len() {
            args[i + 1]
        } else {
            "debug"@
        },
        None => if exists|i: int| 0 <= i < args.len() && args[i] == "--release"@ {
            "release"@
        } else {
            "debug"@
        },
    }
}

/// The views of `args`.
pub open spec fn arg_views(args: Seq<String>) -> Seq<Seq<char>> {
    args.map_values(|a: String| a@)
}

/// The build profile that `cargo build` uses for `args`.
pub fn profile(args: &Vec<String>) -> (r: String)
    ensures
        r@ == spec_profile(arg_views(args@)),
{
    let ghost v = arg_views(args@);
    let flag = String::from_str("--profile");
    let release = String::from_str("--release");
    let mut k: usize = 0;
    let mut seen_release = false;
    while k < args.len()
        invariant
            k <= args@.len(),
            v == arg_views(args@),
            flag@ == "--profile"@,
            release@ == "--release"@,
            forall|j: int| 0 <= j < k ==> v[j] != "--profile"@,
            seen_release <==> exists|j: int| 0 <= j < k && v[j] == "--release"@,
        decreases args@.len() - k,
    {
        assert(v[k as int] == args@[k as int]@);
        if args[k] == flag {
            assert(first_profile_flag(v) == Some(k as int)) by {
                let i = choose|i: int| 0 <= i < v.len() && v[i] == "--profile"@ && forall|j: int| 0 <= j < i ==> v[j] != "--profile"@;
                assert(v[k as int] == "--profile"@);
                if i < k {
                    assert(v[i] != "--profile"@);
                } else if i > k {
                    assert(v[k as int] != "--profile"@);
                }
            }
            if k + 1 < args.len() {
                assert(v[k + 1] == args@[k + 1]@);
                return args[k + 1].clone();
            } else {
                return String::from_str("debug");
            }
        }
        if args[k] == release {
            seen_release = true;
        }
        k = k + 1;
    }
    assert(first_profile_flag(v) is None);
    if seen_release {
        String::from_str("release")
    } else {
        String::from_str("debug")
    }
}

} // verus!
