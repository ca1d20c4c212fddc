//! The files and directories that an installation is made of.

use vstd::prelude::*;
use std::path::{Path, PathBuf};
use crate::text;

verus! {

/// A path of `std::path`.
#[verifier::external_type_specification]
#[verifier::external_body]
pub struct ExPath(std::path::Path);

/// A path of `std::path` that owns its bytes.
#[verifier::external_type_specification]
#[verifier::external_body]
pub struct ExPathBuf(std::path::PathBuf);

/// The bytes that a path holds: those of its text in UTF-8, where it is text.
pub uninterp spec fn path_bytes(path: &Path) -> Seq<u8>;

/// The bytes that a path holds which owns them.
pub uninterp spec fn path_buf_bytes(path: PathBuf) -> Seq<u8>;

/// Whether a path starts at the root.
pub open spec fn is_absolute(path: Seq<u8>) -> bool {
    path.len() > 0 && path[0] == '/' as u8
}

/// Whether a path starts with a dot that stands for the current directory.
pub open spec fn starts_here(path: Seq<u8>) -> bool {
    path.len() > 0 && path[0] == '.' as u8 && (path.len() == 1 || path[1] == '/' as u8)
}

/// How many bytes of a path come before its first slash.
pub open spec fn name_len(path: Seq<u8>) -> nat
    decreases path.len(),
{
    if path.len() == 0 || path[0] == '/' as u8 {
        0
    } else {
        1 + name_len(path.drop_first())
    }
}

/// No more bytes come before the first slash than there are.
pub proof fn lemma_name_len(path: Seq<u8>)
    ensures
        name_len(path) <= path.len(),
    decreases path.len(),
{
    if path.len() > 0 {
        lemma_name_len(path.drop_first());
    }
}

/// The name in a row, unless it is empty or a dot.
pub open spec fn kept_name(name: Seq<u8>) -> Seq<Seq<u8>> {
    if name.len() == 0 || name == seq!['.' as u8] {
        Seq::empty()
    } else {
        seq![name]
    }
}

/// The names between the slashes of a path, without those that are empty or a dot.
pub open spec fn names(path: Seq<u8>) -> Seq<Seq<u8>>
    decreases path.len(),
{
    if path.len() == 0 {
        Seq::empty()
    } else {
        proof {
            lemma_name_len(path);
        }
        let n = name_len(path) as int;
        if n < path.len() {
            kept_name(path.take(n)) + names(path.skip(n + 1))
        } else {
            kept_name(path)
        }
    }
}

/// The components of a path on a Unix system, as `Path::components` tells them: the root or a
/// dot, if the path starts with one, and then its names.
pub open spec fn components(path: Seq<u8>) -> Seq<Seq<u8>> {
    if is_absolute(path) {
        seq![seq!['/' as u8]] + names(path)
    } else if starts_here(path) {
        seq![seq!['.' as u8]] + names(path)
    } else {
        names(path)
    }
}

/// Whether a path has a component behind the root.
pub open spec fn has_parent(path: Seq<u8>) -> bool {
    components(path).len() > 0 && components(path).last() != seq!['/' as u8]
}

/// The path that is made of two: a path that starts at the root stands alone, and another is
/// put behind the base, with a slash between them if the base needs one.
pub open spec fn joined_path(base: Seq<u8>, path: Seq<u8>) -> Seq<u8> {
    if is_absolute(path) {
        path
    } else if base.len() == 0 || base.last() == '/' as u8 {
        base + path
    } else {
        base.push('/' as u8) + path
    }
}

/// What `Path::strip_prefix` leaves of a path without `base` on a Unix system, if the path
/// starts with it.
pub uninterp spec fn stripped_path(path: Seq<u8>, base: Seq<u8>) -> Option<Seq<u8>>;

/// The path that `Path::parent` gives on a Unix system, if there is one.
pub uninterp spec fn parent_path(path: Seq<u8>) -> Option<Seq<u8>>;

/// The last part of a path that `Path::file_name` gives on a Unix system, if there is one.
pub uninterp spec fn last_part(path: Seq<u8>) -> Option<Seq<u8>>;

/// The text that `Path::display` shows for a path.
pub uninterp spec fn shown_path(path: Seq<u8>) -> Seq<char>;

/// Calls `PathBuf::as_path`: the same path.
#[verifier::external_body]
pub(crate) fn as_path(path: &PathBuf) -> (r: &Path)
    ensures
        path_bytes(r) == path_buf_bytes(*path),
{
    path.as_path()
}

/// Calls `Path::to_path_buf`: the same path.
#[verifier::external_body]
pub(crate) fn to_path_buf(path: &Path) -> (r: PathBuf)
    ensures
        path_buf_bytes(r) == path_bytes(path),
{
    path.to_path_buf()
}

/// Calls `Path::new`: the path with the given text.
#[verifier::external_body]
pub(crate) fn new_path(text: &str) -> (r: &Path)
    ensures
        path_bytes(r) == vstd::utf8::encode_utf8(text@),
{
    Path::new(text)
}

/// Calls `Path::join` on a Unix system: the path that is [`joined_path`] of the two.
#[verifier::external_body]
pub(crate) fn join(base: &Path, path: &Path) -> (r: PathBuf)
    ensures
        path_buf_bytes(r) == joined_path(path_bytes(base), path_bytes(path)),
{
    base.join(path)
}

/// Calls `Path::strip_prefix`. What is left, and whether anything is, is a function of the two
/// paths, named [`stripped_path`]. Something is left where the path starts with the components
/// of the base; it is relative where the base has any, and joined to the base it makes the path
/// again. A dot behind the base is passed over, so what is left starts with none.
#[verifier::external_body]
fn strip_prefix<'a>(path: &'a Path, base: &Path) -> (r: Option<&'a Path>)
    ensures
        match r {
            Some(rest) => {
                &&& stripped_path(path_bytes(path), path_bytes(base)) == Some(path_bytes(rest))
                &&& path_bytes(base).len() > 0 ==> {
                    &&& !is_absolute(path_bytes(rest))
                    &&& !starts_here(path_bytes(rest))
                    &&& components(path_bytes(base)) + names(path_bytes(rest)) == components(
                        path_bytes(path),
                    )
                }
            },
            None => {
                &&& stripped_path(path_bytes(path), path_bytes(base)) is None
                &&& !components(path_bytes(base)).is_prefix_of(components(path_bytes(path)))
            },
        },
{
    path.strip_prefix(base).ok()
}

/// Calls `Path::parent`. The parent, and whether there is one, is a function of the path, named
/// [`parent_path`]. It is the path without its last component, and there is one unless the path
/// has no component or ends with the root.
#[verifier::external_body]
fn parent(path: &Path) -> (r: Option<&Path>)
    ensures
        match r {
            Some(parent) => {
                &&& parent_path(path_bytes(path)) == Some(path_bytes(parent))
                &&& has_parent(path_bytes(path))
                &&& components(path_bytes(parent)) == components(path_bytes(path)).drop_last()
            },
            None => parent_path(path_bytes(path)) is None && !has_parent(path_bytes(path)),
        },
{
    path.parent()
}

/// Calls `Path::file_name`. The last part, and whether there is one, is a function of the path,
/// named [`last_part`]. It is the last name of the path, and there is one unless the path has no
/// name or the last is that of the parent.
#[verifier::external_body]
fn file_name(path: &Path) -> (r: Option<&Path>)
    ensures
        match r {
            Some(name) => {
                &&& last_part(path_bytes(path)) == Some(path_bytes(name))
                &&& names(path_bytes(path)).len() > 0
                &&& names(path_bytes(path)).last() == path_bytes(name)
                &&& path_bytes(name) != seq!['.' as u8, '.' as u8]
            },
            None => {
                &&& last_part(path_bytes(path)) is None
                &&& names(path_bytes(path)).len() == 0 || names(path_bytes(path)).last() == seq![
                    '.' as u8,
                    '.' as u8,
                ]
            },
        },
{
    path.file_name().map(Path::new)
}

/// Calls `Path::to_str`: the text of the path, if its bytes are text in UTF-8.
#[verifier::external_body]
fn to_str(path: &Path) -> (r: Option<&str>)
    ensures
        match r {
            Some(text) => path_bytes(path) == vstd::utf8::encode_utf8(text@),
            None => !vstd::utf8::valid_utf8(path_bytes(path)),
        },
{
    path.to_str()
}

/// Calls `Path::display` and takes what is shown as a text. It is a function of the path, named
/// [`shown_path`], and the text of the path where it is text.
#[verifier::external_body]
pub(crate) fn show(path: &Path) -> (r: String)
    ensures
        r@ == shown_path(path_bytes(path)),
        vstd::utf8::valid_utf8(path_bytes(path)) ==> r@ == vstd::utf8::decode_utf8(
            path_bytes(path),
        ),
{
    path.display().to_string()
}

/// Why a path cannot be used.
#[derive(Debug)]
pub enum PathError {
    /// The path shown has no parent.
    NoParent(String),
    /// The path shown, which is for the web interface, has no parent.
    WebUiNoParent(String),
    /// The path shown is not text in UTF-8.
    NotUtf8(String),
}

impl PathError {
    /// The message for the user.
    pub fn message(&self) -> (r: String)
        ensures
            r@ == match *self {
                PathError::NoParent(path) => "Path `"@ + path@ + "` has no parent"@,
                PathError::WebUiNoParent(path) => "Web UI path `"@ + path@ + "` has no parent"@,
                PathError::NotUtf8(path) => "Path `"@ + path@ + "` is not valid UTF-8"@,
            },
    {
        match self {
            PathError::NoParent(path) => "Path `".to_owned().concat(path.as_str()).concat(
                "` has no parent",
            ),
            PathError::WebUiNoParent(path) => "Web UI path `".to_owned().concat(
                path.as_str(),
            ).concat("` has no parent"),
            PathError::NotUtf8(path) => "Path `".to_owned().concat(path.as_str()).concat(
                "` is not valid UTF-8",
            ),
        }
    }
}

/// The text of `path`.
pub fn path_to_str(path: &Path) -> (r: Result<&str, PathError>)
    ensures
        match r {
            Ok(text) => vstd::utf8::valid_utf8(path_bytes(path)) && text@
                == vstd::utf8::decode_utf8(path_bytes(path)),
            Err(error) => !vstd::utf8::valid_utf8(path_bytes(path)) && error is NotUtf8
                && error->NotUtf8_0@ == shown_path(path_bytes(path)),
        },
{
    match to_str(path) {
        Some(text) => {
            proof {
                vstd::utf8::encode_utf8_valid_utf8(text@);
                vstd::utf8::encode_utf8_decode_utf8(text@);
            }
            Ok(text)
        },
        None => Err(PathError::NotUtf8(show(path))),
    }
}

/// The directory that `path` stands in.
pub fn parent_dir(path: &Path) -> (r: Result<&Path, PathError>)
    ensures
        match r {
            Ok(parent) => parent_path(path_bytes(path)) == Some(path_bytes(parent)) && has_parent(
                path_bytes(path),
            ) && components(path_bytes(parent)) == components(path_bytes(path)).drop_last(),
            Err(error) => parent_path(path_bytes(path)) is None && !has_parent(path_bytes(path))
                && error is NoParent && error->NoParent_0@ == shown_path(path_bytes(path)),
        },
{
    match parent(path) {
        Some(parent) => Ok(parent),
        None => Err(PathError::NoParent(show(path))),
    }
}

/// The directory that the web interface's directory `path` stands in.
pub fn web_ui_parent(path: &Path) -> (r: Result<&Path, PathError>)
    ensures
        match r {
            Ok(parent) => parent_path(path_bytes(path)) == Some(path_bytes(parent)) && has_parent(
                path_bytes(path),
            ) && components(path_bytes(parent)) == components(path_bytes(path)).drop_last(),
            Err(error) => parent_path(path_bytes(path)) is None && !has_parent(path_bytes(path))
                && error is WebUiNoParent && error->WebUiNoParent_0@ == shown_path(path_bytes(path)),
        },
{
    match parent(path) {
        Some(parent) => Ok(parent),
        None => Err(PathError::WebUiNoParent(show(path))),
    }
}

/// `path` below the directory `root`, if there is one.
pub open spec fn rooted(root: Option<Seq<u8>>, path: Seq<u8>) -> Seq<u8> {
    match root {
        None => path,
        Some(root) => match stripped_path(path, vstd::utf8::encode_utf8("/"@)) {
            Some(rest) => joined_path(root, rest),
            None => joined_path(root, path),
        },
    }
}

/// The bytes of a path that may be missing.
pub open spec fn optional_bytes(path: Option<&Path>) -> Option<Seq<u8>> {
    match path {
        Some(path) => Some(path_bytes(path)),
        None => None,
    }
}

/// The components of `path` below the directory `root`: those of the directory, and then the
/// names in the path. Below the empty path a path that does not start at the root stays.
pub open spec fn components_below(root: Seq<u8>, path: Seq<u8>) -> Seq<Seq<u8>> {
    if root.len() == 0 && !is_absolute(path) {
        components(path)
    } else {
        components(root) + names(path)
    }
}

/// `path` below the directory `root`, if there is one. Whether or not the path starts at the
/// root of the file system, it comes to lie below `root`.
pub fn apply_root(root: Option<&Path>, path: &Path) -> (r: PathBuf)
    ensures
        path_buf_bytes(r) == rooted(optional_bytes(root), path_bytes(path)),
        match root {
            Some(root) => components(path_buf_bytes(r)) == components_below(
                path_bytes(root),
                path_bytes(path),
            ),
            None => true,
        },
{
    let root = match root {
        Some(root) => root,
        None => {
            return to_path_buf(path);
        },
    };
    proof {
        lemma_root();
    }
    let ghost whole = path_bytes(path);
    match strip_prefix(path, new_path("/")) {
        Some(rest) => {
            proof {
                let slash = seq![seq!['/' as u8]];
                let left = names(path_bytes(rest));
                assert((slash + left)[0] == slash[0]);
                if !is_absolute(whole) {
                    lemma_names_have_no_slash(whole);
                    assert(slash[0][0] == '/' as u8);
                }
                assert((slash + left).skip(1) =~= left);
                assert((slash + names(whole)).skip(1) =~= names(whole));
                lemma_joined(path_bytes(root), path_bytes(rest));
            }
            join(root, rest)
        },
        None => {
            proof {
                assert(is_absolute(whole) ==> components(whole).take(1) =~= seq![seq!['/' as u8]]);
                lemma_joined(path_bytes(root), whole);
            }
            join(root, path)
        },
    }
}

/// The root has one component, and its text one byte.
proof fn lemma_root()
    ensures
        vstd::utf8::encode_utf8("/"@) == seq!['/' as u8],
        components(seq!['/' as u8]) == seq![seq!['/' as u8]],
{
    reveal_strlit("/");
    reveal_with_fuel(vstd::utf8::encode_utf8, 2);
    reveal_with_fuel(names, 2);
    let root = seq!['/' as u8];
    assert("/"@ =~= seq!['/']);
    assert(seq!['/'].drop_first() =~= Seq::<char>::empty());
    assert(0x2f_u32 & 0x7f == 0x2f) by (bit_vector);
    assert(vstd::utf8::encode_utf8("/"@) =~= root);
    assert(root.skip(1) =~= Seq::<u8>::empty());
    assert(components(root) =~= seq![root]);
}

/// No name has a slash in it.
proof fn lemma_names_have_no_slash(path: Seq<u8>)
    ensures
        forall|i: int, j: int|
            0 <= i < names(path).len() && 0 <= j < names(path)[i].len()
                ==> #[trigger] names(path)[i][j] != '/' as u8,
        forall|i: int| 0 <= i < names(path).len() ==> (#[trigger] names(path)[i]).len() > 0,
    decreases path.len(),
{
    if path.len() > 0 {
        lemma_name_len(path);
        lemma_name_has_no_slash(path);
        let n = name_len(path) as int;
        let first = path.take(n);
        let rest = if n < path.len() {
            lemma_names_have_no_slash(path.skip(n + 1));
            names(path.skip(n + 1))
        } else {
            assert(path.take(n) =~= path);
            Seq::empty()
        };
        let head = kept_name(first);
        assert(names(path) =~= head + rest);
        assert forall|i: int| 0 <= i < names(path).len() implies (#[trigger] names(path)[i]).len()
            > 0 by {
            if i >= head.len() {
                assert(names(path)[i] == rest[i - head.len()]);
            }
        }
        assert forall|i: int, j: int|
            0 <= i < names(path).len() && 0 <= j < names(path)[i].len() implies #[trigger] names(
            path,
        )[i][j] != '/' as u8 by {
            if i < head.len() {
                assert(names(path)[i] == first);
                assert(first[j] == path[j]);
            } else {
                assert(names(path)[i] == rest[i - head.len()]);
                assert(rest[i - head.len()][j] != '/' as u8);
            }
        }
    }
}

/// There is no slash before the first one.
proof fn lemma_name_has_no_slash(path: Seq<u8>)
    ensures
        forall|j: int| 0 <= j < name_len(path) && j < path.len() ==> path[j] != '/' as u8,
    decreases path.len(),
{
    if path.len() > 0 && path[0] != '/' as u8 {
        let rest = path.drop_first();
        lemma_name_has_no_slash(rest);
        assert forall|j: int| 0 <= j < name_len(path) && j < path.len() implies path[j]
            != '/' as u8 by {
            if j > 0 {
                assert(path[j] == rest[j - 1]);
            }
        }
    }
}

/// Bytes without a slash all come before the first one.
proof fn lemma_name_is_whole(name: Seq<u8>)
    requires
        forall|j: int| 0 <= j < name.len() ==> name[j] != '/' as u8,
    ensures
        name_len(name) == name.len(),
    decreases name.len(),
{
    if name.len() > 0 {
        lemma_name_is_whole(name.drop_first());
    }
}

/// What the components of a joined path are, where the second path does not start at the root.
proof fn lemma_joined(base: Seq<u8>, path: Seq<u8>)
    requires
        !is_absolute(path),
    ensures
        base.len() > 0 ==> components(joined_path(base, path)) == components(base) + names(path),
        base.len() == 0 ==> joined_path(base, path) == path,
{
    let whole = joined_path(base, path);
    let slash = '/' as u8;
    if base.len() == 0 {
        assert(whole =~= path);
    } else if base.last() == slash {
        let a = base.drop_last();
        let none = Seq::<u8>::empty();
        assert(a.push(slash) =~= base);
        assert(a.push(slash) + none =~= base);
        lemma_names_split(a, none);
        lemma_names_split(a, path);
        assert(names(base) =~= names(a));
        assert(whole[0] == base[0]);
        assert(base.len() > 1 ==> whole[1] == base[1]);
        assert(components(whole) =~= components(base) + names(path));
    } else {
        lemma_names_split(base, path);
        assert(whole[0] == base[0]);
        assert(base.len() > 1 ==> whole[1] == base[1]);
        assert(base.len() == 1 ==> whole[1] == slash);
        assert(components(whole) =~= components(base) + names(path));
    }
}

/// What the components of a path are that is joined with a name.
proof fn lemma_joined_name(base: Seq<u8>, name: Seq<u8>)
    requires
        name.len() > 1,
        forall|j: int| 0 <= j < name.len() ==> name[j] != '/' as u8,
    ensures
        components(joined_path(base, name)) == components(base).push(name),
{
    lemma_name_is_whole(name);
    assert(names(name) == seq![name]);
    assert(components(name) == seq![name]);
    lemma_joined(base, name);
    if base.len() == 0 {
        assert(components(base) =~= Seq::empty());
    }
    assert(components(base) + seq![name] =~= components(base).push(name));
}

/// A text of ASCII characters without a slash has no slash among its bytes.
proof fn lemma_plain_text(text: Seq<char>)
    requires
        vstd::utf8::is_ascii_chars(text),
        !text.contains('/'),
    ensures
        vstd::utf8::encode_utf8(text).len() == text.len(),
        forall|j: int|
            0 <= j < text.len() ==> #[trigger] vstd::utf8::encode_utf8(text)[j] != '/' as u8,
{
    vstd::utf8::is_ascii_chars_encode_utf8(text);
    assert forall|j: int| 0 <= j < text.len() implies #[trigger] vstd::utf8::encode_utf8(text)[j]
        != '/' as u8 by {
        assert(text.contains(text[j]));
    }
}

/// The names of a path with a slash in it are those before and those behind it.
proof fn lemma_names_split(a: Seq<u8>, b: Seq<u8>)
    ensures
        names(a.push('/' as u8) + b) == names(a) + names(b),
    decreases a.len(),
{
    let whole = a.push('/' as u8) + b;
    lemma_name_len(a);
    lemma_name_len_split(a, b);
    let n = name_len(a) as int;
    assert(whole.take(n) =~= a.take(n));
    if n < a.len() {
        let rest = a.skip(n + 1);
        assert(whole.skip(n + 1) =~= rest.push('/' as u8) + b);
        lemma_names_split(rest, b);
        assert(names(whole) =~= names(a) + names(b));
    } else {
        assert(a.take(n) =~= a);
        assert(whole.skip(n + 1) =~= b);
        assert(names(whole) =~= names(a) + names(b));
    }
}

/// What comes before the first slash stays, when a slash and more follow.
proof fn lemma_name_len_split(a: Seq<u8>, b: Seq<u8>)
    ensures
        name_len(a.push('/' as u8) + b) == name_len(a),
    decreases a.len(),
{
    let whole = a.push('/' as u8) + b;
    if a.len() > 0 {
        assert(whole[0] == a[0]);
        assert(whole.drop_first() =~= a.drop_first().push('/' as u8) + b);
        lemma_name_len_split(a.drop_first(), b);
    } else {
        assert(whole[0] == '/' as u8);
    }
}

/// A path that was put below a directory starts with the components of that directory.
pub proof fn rooted_path_is_below_root(root: Seq<u8>, path: Seq<u8>)
    ensures
        components(root).is_prefix_of(components_below(root, path)),
{
    let n = components(root).len() as int;
    if root.len() == 0 {
        assert(components(root) =~= Seq::empty());
    }
    assert(components_below(root, path).take(n) =~= components(root));
}

/// Below a directory it makes no difference whether a path starts at the root of the file
/// system. Below the empty path it makes none where the path does not start with a dot.
pub proof fn leading_slash_makes_no_difference(root: Seq<u8>, path: Seq<u8>)
    requires
        root.len() > 0 || !starts_here(path),
    ensures
        components_below(root, seq!['/' as u8] + path) == components_below(root, path),
{
    let none = Seq::<u8>::empty();
    lemma_names_split(none, path);
    assert(none.push('/' as u8) + path =~= seq!['/' as u8] + path);
    assert(names(none) + names(path) =~= names(path));
    if root.len() == 0 {
        assert(components(root) + names(path) =~= names(path));
    }
}

/// What the user wants to have elsewhere than usual.
pub struct InitOverrides {
    /// The directory below which the usual paths are taken.
    pub root: Option<PathBuf>,
    /// The configuration file.
    pub config: Option<PathBuf>,
    /// The Mihomo binary.
    pub binary: Option<PathBuf>,
    /// The systemd unit.
    pub unit: Option<PathBuf>,
    /// The program that controls systemd.
    pub systemctl: Option<PathBuf>,
}

/// The files and directories of an installation.
pub struct InitPaths {
    /// The directory of the configuration.
    pub config_dir: PathBuf,
    /// The configuration file.
    pub config_path: PathBuf,
    /// The Mihomo binary.
    pub binary_path: PathBuf,
    /// The systemd unit.
    pub systemd_unit_path: PathBuf,
    /// The directory of the web interface.
    pub web_ui_dir: PathBuf,
    /// The program that controls systemd.
    pub systemctl_path: PathBuf,
}

/// The bytes of an owned path that may be missing.
pub open spec fn optional_buf_bytes(path: Option<PathBuf>) -> Option<Seq<u8>> {
    match path {
        Some(path) => Some(path_buf_bytes(path)),
        None => None,
    }
}

/// `chosen` if there is one, else `usual` below `root`.
pub open spec fn chosen_or_rooted(
    chosen: Option<PathBuf>,
    root: Option<PathBuf>,
    usual: Seq<u8>,
) -> Seq<u8> {
    match chosen {
        Some(path) => path_buf_bytes(path),
        None => rooted(optional_buf_bytes(root), usual),
    }
}

/// Whether `placed` is `usual` below `root`, where nothing was chosen and there is a root.
pub open spec fn chosen_or_below(
    chosen: Option<PathBuf>,
    root: Option<PathBuf>,
    usual: Seq<u8>,
    placed: Seq<u8>,
) -> bool {
    match (chosen, root) {
        (None, Some(root)) => components(placed) == components_below(path_buf_bytes(root), usual),
        _ => true,
    }
}

/// A path as a reference, if there is one.
fn borrowed(path: &Option<PathBuf>) -> (r: Option<&Path>)
    ensures
        optional_bytes(r) == optional_buf_bytes(*path),
        r is Some == path is Some,
{
    match path {
        Some(path) => Some(as_path(path)),
        None => None,
    }
}

/// `chosen` if there is one, else `usual` below `root`.
fn choose_path(chosen: &Option<PathBuf>, root: &Option<PathBuf>, usual: &Path) -> (r: PathBuf)
    ensures
        path_buf_bytes(r) == chosen_or_rooted(*chosen, *root, path_bytes(usual)),
        chosen_or_below(*chosen, *root, path_bytes(usual), path_buf_bytes(r)),
{
    match chosen {
        Some(path) => to_path_buf(as_path(path)),
        None => apply_root(borrowed(root), usual),
    }
}

impl InitPaths {
    /// The files and directories of an installation with its configuration at `config_path`, but
    /// for what the user wants to have elsewhere.
    pub fn new(config_path: PathBuf, overrides: &InitOverrides) -> (r: Self)
        ensures
            path_buf_bytes(r.config_path) == chosen_or_rooted(
                overrides.config,
                overrides.root,
                path_buf_bytes(config_path),
            ),
            chosen_or_below(
                overrides.config,
                overrides.root,
                path_buf_bytes(config_path),
                path_buf_bytes(r.config_path),
            ),
            path_buf_bytes(r.config_dir) == match parent_path(path_buf_bytes(r.config_path)) {
                Some(dir) => dir,
                None => rooted(
                    optional_buf_bytes(overrides.root),
                    vstd::utf8::encode_utf8("/etc/mihomo"@),
                ),
            },
            has_parent(path_buf_bytes(r.config_path)) == parent_path(
                path_buf_bytes(r.config_path),
            ) is Some,
            if has_parent(path_buf_bytes(r.config_path)) {
                components(path_buf_bytes(r.config_dir)) == components(
                    path_buf_bytes(r.config_path),
                ).drop_last()
            } else {
                chosen_or_below(
                    None,
                    overrides.root,
                    vstd::utf8::encode_utf8("/etc/mihomo"@),
                    path_buf_bytes(r.config_dir),
                )
            },
            path_buf_bytes(r.binary_path) == chosen_or_rooted(
                overrides.binary,
                overrides.root,
                vstd::utf8::encode_utf8("/usr/local/bin/mihomo"@),
            ),
            chosen_or_below(
                overrides.binary,
                overrides.root,
                vstd::utf8::encode_utf8("/usr/local/bin/mihomo"@),
                path_buf_bytes(r.binary_path),
            ),
            path_buf_bytes(r.systemd_unit_path) == chosen_or_rooted(
                overrides.unit,
                overrides.root,
                vstd::utf8::encode_utf8("/etc/systemd/system/mihomo.service"@),
            ),
            chosen_or_below(
                overrides.unit,
                overrides.root,
                vstd::utf8::encode_utf8("/etc/systemd/system/mihomo.service"@),
                path_buf_bytes(r.systemd_unit_path),
            ),
            path_buf_bytes(r.web_ui_dir) == joined_path(
                path_buf_bytes(r.config_dir),
                vstd::utf8::encode_utf8("web-ui"@),
            ),
            components(path_buf_bytes(r.web_ui_dir)) == components(
                path_buf_bytes(r.config_dir),
            ).push(vstd::utf8::encode_utf8("web-ui"@)),
            match (overrides.config, overrides.root) {
                (Some(path), _) => path_buf_bytes(r.config_path) == path_buf_bytes(path),
                (None, None) => path_buf_bytes(r.config_path) == path_buf_bytes(config_path),
                (None, Some(root)) => components(path_buf_bytes(r.config_path))
                    == components_below(
                    path_buf_bytes(root),
                    path_buf_bytes(config_path),
                ),
            },
            match (overrides.binary, overrides.root) {
                (Some(path), _) => path_buf_bytes(r.binary_path) == path_buf_bytes(path),
                (None, None) => path_buf_bytes(r.binary_path) == vstd::utf8::encode_utf8(
                    "/usr/local/bin/mihomo"@,
                ),
                (None, Some(root)) => components(path_buf_bytes(r.binary_path))
                    == components_below(
                    path_buf_bytes(root),
                    vstd::utf8::encode_utf8("/usr/local/bin/mihomo"@),
                ),
            },
            match (overrides.unit, overrides.root) {
                (Some(path), _) => path_buf_bytes(r.systemd_unit_path) == path_buf_bytes(path),
                (None, None) => path_buf_bytes(r.systemd_unit_path) == vstd::utf8::encode_utf8(
                    "/etc/systemd/system/mihomo.service"@,
                ),
                (None, Some(root)) => components(path_buf_bytes(r.systemd_unit_path))
                    == components_below(
                    path_buf_bytes(root),
                    vstd::utf8::encode_utf8("/etc/systemd/system/mihomo.service"@),
                ),
            },
            path_buf_bytes(r.systemctl_path) == match overrides.systemctl {
                Some(path) => path_buf_bytes(path),
                None => vstd::utf8::encode_utf8("systemctl"@),
            },
    {
        let config_path = choose_path(&overrides.config, &overrides.root, as_path(&config_path));
        let config_dir = match parent(as_path(&config_path)) {
            Some(dir) => to_path_buf(dir),
            None => apply_root(borrowed(&overrides.root), new_path("/etc/mihomo")),
        };
        let binary_path = choose_path(
            &overrides.binary,
            &overrides.root,
            new_path("/usr/local/bin/mihomo"),
        );
        let systemd_unit_path = choose_path(
            &overrides.unit,
            &overrides.root,
            new_path("/etc/systemd/system/mihomo.service"),
        );
        let web_ui_dir = join(as_path(&config_dir), new_path("web-ui"));
        proof {
            reveal_strlit("web-ui");
            lemma_plain_text("web-ui"@);
            lemma_joined_name(path_buf_bytes(config_dir), vstd::utf8::encode_utf8("web-ui"@));
        }
        let systemctl_path = match &overrides.systemctl {
            Some(path) => to_path_buf(as_path(path)),
            None => to_path_buf(new_path("systemctl")),
        };
        InitPaths {
            config_dir,
            config_path,
            binary_path,
            systemd_unit_path,
            web_ui_dir,
            systemctl_path,
        }
    }

    /// Where the database of addresses by country goes.
    pub fn geoip_db(&self) -> (r: PathBuf)
        ensures
            path_buf_bytes(r) == joined_path(
                path_buf_bytes(self.config_dir),
                vstd::utf8::encode_utf8("geoip.metadb"@),
            ),
            components(path_buf_bytes(r)) == components(path_buf_bytes(self.config_dir)).push(
                vstd::utf8::encode_utf8("geoip.metadb"@),
            ),
    {
        proof {
            reveal_strlit("geoip.metadb");
            lemma_plain_text("geoip.metadb"@);
            lemma_joined_name(
                path_buf_bytes(self.config_dir),
                vstd::utf8::encode_utf8("geoip.metadb"@),
            );
        }
        join(as_path(&self.config_dir), new_path("geoip.metadb"))
    }
}

/// The sign for the decimal digit `d`.
pub open spec fn decimal_digit(d: int) -> char {
    (d + '0' as int) as char
}

/// `n` in decimal digits.
pub open spec fn decimal(n: nat) -> Seq<char>
    decreases n,
{
    if n < 10 {
        seq![decimal_digit(n as int)]
    } else {
        decimal(n / 10).push(decimal_digit(n as int % 10))
    }
}

/// The decimal digit `d`.
fn digit_text(d: u32) -> (r: &'static str)
    requires
        d < 10,
    ensures
        r@ == seq![decimal_digit(d as int)],
{
    proof {
        reveal_strlit("0");
        reveal_strlit("1");
        reveal_strlit("2");
        reveal_strlit("3");
        reveal_strlit("4");
        reveal_strlit("5");
        reveal_strlit("6");
        reveal_strlit("7");
        reveal_strlit("8");
        reveal_strlit("9");
    }
    if d == 0 {
        "0"
    } else if d == 1 {
        "1"
    } else if d == 2 {
        "2"
    } else if d == 3 {
        "3"
    } else if d == 4 {
        "4"
    } else if d == 5 {
        "5"
    } else if d == 6 {
        "6"
    } else if d == 7 {
        "7"
    } else if d == 8 {
        "8"
    } else {
        "9"
    }
}

/// `n` in decimal digits.
pub fn decimal_text(n: u32) -> (r: String)
    ensures
        r@ == decimal(n as nat),
    decreases n,
{
    if n < 10 {
        digit_text(n).to_owned()
    } else {
        let mut r = decimal_text(n / 10);
        assert(r@ + seq![decimal_digit(n as int % 10)] =~= r@.push(decimal_digit(n as int % 10)));
        r.append(digit_text(n % 10));
        r
    }
}

/// The name of the file that process `pid` writes before it takes the place of one with the
/// name `name`.
pub open spec fn temporary_name(name: Seq<char>, pid: u32) -> Seq<char> {
    "."@ + name + "."@ + decimal(pid as nat) + ".tmp"@
}

/// The name of the file that process `pid` writes before it takes the place of one with the
/// name `name`, or of the binary where there is no name.
pub fn temporary_file_name(name: Option<&str>, pid: u32) -> (r: String)
    ensures
        r@ == temporary_name(
            match name {
                Some(name) => name@,
                None => "mihomo"@,
            },
            pid,
        ),
{
    let name = match name {
        Some(name) => name,
        None => "mihomo",
    };
    ".".to_owned().concat(name).concat(".").concat(decimal_text(pid).as_str()).concat(".tmp")
}

/// The name that goes into a temporary file's: the last part of the path, if there is one and
/// it is text, else that of the binary.
pub open spec fn temporary_stem(path: Seq<u8>) -> Seq<char> {
    match last_part(path) {
        Some(last) => if vstd::utf8::valid_utf8(last) {
            vstd::utf8::decode_utf8(last)
        } else {
            "mihomo"@
        },
        None => "mihomo"@,
    }
}

/// The decimal digits of a number are plain.
proof fn lemma_decimal_is_plain(n: nat)
    ensures
        vstd::utf8::is_ascii_chars(decimal(n)),
        !decimal(n).contains('/'),
    decreases n,
{
    if n >= 10 {
        lemma_decimal_is_plain(n / 10);
        let rest = decimal(n / 10);
        assert forall|j: int| 0 <= j < decimal(n).len() implies #[trigger] decimal(n)[j] != '/' by {
            if j < rest.len() {
                assert(rest.contains(rest[j]));
            }
        }
    }
}

/// A temporary file's name has no slash among its bytes, where the name that goes into it has
/// none.
proof fn lemma_temporary_name(name: Seq<char>, pid: u32)
    requires
        forall|j: int|
            0 <= j < vstd::utf8::encode_utf8(name).len() ==> #[trigger] vstd::utf8::encode_utf8(
                name,
            )[j] != '/' as u8,
    ensures
        ({
            let bytes = vstd::utf8::encode_utf8(temporary_name(name, pid));
            bytes.len() > 1 && forall|j: int|
                0 <= j < bytes.len() ==> #[trigger] bytes[j] != '/' as u8
        }),
{
    reveal_strlit(".");
    reveal_strlit(".tmp");
    let digits = decimal(pid as nat);
    lemma_decimal_is_plain(pid as nat);
    lemma_plain_text("."@);
    lemma_plain_text(".tmp"@);
    lemma_plain_text(digits);
    text::lemma_encode_concat("."@, name);
    text::lemma_encode_concat("."@ + name, "."@);
    text::lemma_encode_concat("."@ + name + "."@, digits);
    text::lemma_encode_concat("."@ + name + "."@ + digits, ".tmp"@);
}

/// The name that goes into a temporary file's has no slash among its bytes.
proof fn lemma_temporary_stem(path: Seq<u8>)
    requires
        last_part(path) matches Some(last) ==> names(path).len() > 0 && names(path).last() == last,
    ensures
        forall|j: int|
            0 <= j < vstd::utf8::encode_utf8(temporary_stem(path)).len()
                ==> #[trigger] vstd::utf8::encode_utf8(temporary_stem(path))[j] != '/' as u8,
{
    reveal_strlit("mihomo");
    lemma_plain_text("mihomo"@);
    if let Some(last) = last_part(path) {
        if vstd::utf8::valid_utf8(last) {
            vstd::utf8::decode_utf8_encode_utf8(last);
            lemma_names_have_no_slash(path);
            let i = names(path).len() - 1;
            assert forall|j: int| 0 <= j < last.len() implies #[trigger] last[j] != '/' as u8 by {
                assert(names(path)[i][j] != '/' as u8);
            }
        }
    }
}

/// The file beside `path` that process `pid` writes before it takes the place of `path`.
pub fn temporary_path(path: &Path, pid: u32) -> (r: Result<PathBuf, PathError>)
    ensures
        r is Ok <==> has_parent(path_bytes(path)),
        match parent_path(path_bytes(path)) {
            None => r matches Err(error) && error is NoParent && error->NoParent_0@ == shown_path(
                path_bytes(path),
            ),
            Some(dir) => {
                let name = vstd::utf8::encode_utf8(
                    temporary_name(temporary_stem(path_bytes(path)), pid),
                );
                r matches Ok(temporary) && path_buf_bytes(temporary) == joined_path(dir, name)
                    && components(path_buf_bytes(temporary)) == components(
                    path_bytes(path),
                ).drop_last().push(name)
            },
        },
{
    let dir = match parent_dir(path) {
        Ok(dir) => dir,
        Err(error) => {
            return Err(error);
        },
    };
    let name = match file_name(path) {
        Some(last) => match path_to_str(last) {
            Ok(name) => Some(name),
            Err(_) => None,
        },
        None => None,
    };
    proof {
        let stem = temporary_stem(path_bytes(path));
        lemma_temporary_stem(path_bytes(path));
        lemma_temporary_name(stem, pid);
        lemma_joined_name(path_bytes(dir), vstd::utf8::encode_utf8(temporary_name(stem, pid)));
    }
    Ok(join(dir, new_path(temporary_file_name(name, pid).as_str())))
}

/// What the user chose stands, with a root or without one.
pub proof fn chosen_path_stands(chosen: PathBuf, root: Option<PathBuf>, usual: Seq<u8>)
    ensures
        chosen_or_rooted(Some(chosen), root, usual) == path_buf_bytes(chosen),
{
}

/// Where nothing was chosen and there is no root, the usual path stands.
pub proof fn usual_path_stands_without_a_root(usual: Seq<u8>)
    ensures
        chosen_or_rooted(None, None, usual) == usual,
        rooted(None, usual) == usual,
{
}

/// Below a directory a path has the components of the directory, then its own names, and nothing
/// else.
pub proof fn names_come_behind_the_root(root: Seq<u8>, path: Seq<u8>)
    requires
        root.len() > 0,
    ensures
        components(root).is_prefix_of(components_below(root, path)),
        names(path).is_suffix_of(components_below(root, path)),
        components_below(root, path).len() == components(root).len() + names(path).len(),
{
    rooted_path_is_below_root(root, path);
    let all = components_below(root, path);
    assert(names(path) =~= all.subrange(all.len() - names(path).len(), all.len() as int));
}

/// The digits of a number are those of its tenth and one more.
pub proof fn digits_of_tens_and_units(tens: nat, unit: nat)
    requires
        unit < 10,
    ensures
        decimal(unit).len() == 1,
        decimal(unit)[0] as u32 == '0' as u32 + unit,
        tens > 0 ==> decimal(tens * 10 + unit) == decimal(tens) + decimal(unit),
{
    if tens > 0 {
        let n = tens * 10 + unit;
        assert(n / 10 == tens && n % 10 == unit);
        assert(decimal(n) =~= decimal(tens) + decimal(unit));
    }
}

/// Two numbers with the same digits are the same.
proof fn lemma_decimal_injective(a: nat, b: nat)
    requires
        decimal(a) == decimal(b),
    ensures
        a == b,
    decreases a,
{
    lemma_decimal_len(a);
    lemma_decimal_len(b);
    assert(decimal(a).last() == decimal_digit(a as int % 10));
    assert(decimal(b).last() == decimal_digit(b as int % 10));
    assert(decimal_digit(a as int % 10) as int == a % 10 + '0' as int);
    assert(decimal_digit(b as int % 10) as int == b % 10 + '0' as int);
    if a >= 10 {
        assert(decimal(a).drop_last() =~= decimal(a / 10));
        assert(decimal(b).drop_last() =~= decimal(b / 10));
        lemma_decimal_injective(a / 10, b / 10);
    }
}

/// A number has more than one digit from ten on.
proof fn lemma_decimal_len(n: nat)
    ensures
        decimal(n).len() > 0,
        decimal(n).len() > 1 <==> n >= 10,
    decreases n,
{
    if n >= 10 {
        lemma_decimal_len(n / 10);
    }
}

/// The names that two processes give to temporary files differ, and none is the name of the file
/// whose place is taken. Each is hidden and ends as temporary files do.
pub proof fn temporary_names_differ(name: Seq<char>, pid: u32, other: u32)
    ensures
        temporary_name(name, pid) == temporary_name(name, other) ==> pid == other,
        temporary_name(name, pid) != name,
        temporary_name(name, pid) == seq!['.'] + name + seq!['.'] + decimal(pid as nat) + ".tmp"@,
{
    reveal_strlit(".");
    reveal_strlit(".tmp");
    let head = "."@ + name + "."@;
    let one = decimal(pid as nat);
    let two = decimal(other as nat);
    let a = temporary_name(name, pid);
    let b = temporary_name(name, other);
    assert("."@ =~= seq!['.']);
    assert(a.len() > name.len());
    if a == b {
        assert(one =~= a.subrange(head.len() as int, a.len() - 4));
        assert(two =~= b.subrange(head.len() as int, b.len() - 4));
        lemma_decimal_injective(pid as nat, other as nat);
    }
}

/// The name that goes into a temporary file's is the last part of the path wherever that is
/// text.
pub proof fn temporary_name_holds_the_last_part(path: Seq<u8>, last: Seq<char>)
    requires
        last_part(path) == Some(vstd::utf8::encode_utf8(last)),
    ensures
        temporary_stem(path) == last,
{
    vstd::utf8::encode_utf8_valid_utf8(last);
    vstd::utf8::encode_utf8_decode_utf8(last);
}

/// Where nothing was chosen, the usual path goes below the root.
pub proof fn usual_path_goes_below_the_root(root: PathBuf, usual: Seq<u8>)
    ensures
        chosen_or_rooted(None, Some(root), usual) == rooted(Some(path_buf_bytes(root)), usual),
{
}

/// A path goes below a root by being joined to it, without the slash at its front if it has one.
pub proof fn path_is_joined_to_its_root(root: Seq<u8>, path: Seq<u8>)
    ensures
        match stripped_path(path, seq!['/' as u8]) {
            Some(rest) => rooted(Some(root), path) == joined_path(root, rest),
            None => rooted(Some(root), path) == joined_path(root, path),
        },
{
    lemma_root();
}

/// A path without a last part that is text has the name of the binary in its temporary file's.
pub proof fn temporary_name_falls_back_on_the_binary(path: Seq<u8>)
    requires
        last_part(path) matches Some(last) ==> !vstd::utf8::valid_utf8(last),
    ensures
        temporary_stem(path) == "mihomo"@,
{
}

} // verus!
