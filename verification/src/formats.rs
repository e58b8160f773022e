//! Which files are images, and which of them are camera raw files.
use vstd::prelude::*;
use crate::text::{
    ascii_lower, ascii_lowercase, extension_follows_the_last_dot, extension_of, last_index_of,
    last_index_of_is_last,
    reads_lowercased, split_name, stem_end, text_view,
};
use crate::vision::greatest;

verus! {

// ---------------------------------------------------------------------------
// File names
// ---------------------------------------------------------------------------

/// What follows the last slash of a path.
pub open spec fn after_slash(path: Seq<char>) -> Seq<char> {
    path.skip(last_index_of(path, '/') + 1)
}

/// The name that ends a path: what follows the last slash, where slashes and
/// single dots at the end do not count. `None` where nothing is left or where two
/// dots lead back up.
pub open spec fn last_name(path: Seq<char>) -> Option<Seq<char>>
    decreases path.len(),
{
    let slash = last_index_of(path, '/');
    let name = after_slash(path);
    if name.len() > 0 && name != seq!['.'] && name != seq!['.', '.'] {
        Some(name)
    } else if name != seq!['.', '.'] && 0 <= slash < path.len() {
        last_name(path.take(slash))
    } else {
        None
    }
}

/// A path that every platform reads alike: it holds no backslash and does not
/// open with two slashes, and the name that ends it holds no colon.
pub open spec fn is_portable(path: Seq<char>) -> bool {
    &&& !path.contains('\\')
    &&& !(path.len() >= 2 && path[0] == '/' && path[1] == '/')
    &&& last_name(path) matches Some(name) ==> !name.contains(':')
}

/// Whether some platform ends a directory, a drive or a share with this character.
pub open spec fn is_divider(c: char) -> bool {
    c == '/' || c == '\\' || c == ':'
}

/// The position behind the last slash, backslash or colon of a path.
pub open spec fn tail_start(path: Seq<char>) -> int {
    greatest(
        greatest(last_index_of(path, '/'), last_index_of(path, '\\')),
        last_index_of(path, ':'),
    ) + 1
}

/// What follows the last slash, backslash or colon of a path.
pub open spec fn tail_name(path: Seq<char>) -> Seq<char> {
    path.skip(tail_start(path))
}

/// Whether some platform ends a directory with this character.
pub open spec fn is_slash(c: char) -> bool {
    c == '/' || c == '\\'
}

/// Whether a path opens with two slashes or backslashes, which on some platform may
/// stand before a server, a drive or a device.
pub open spec fn opens_with_two_slashes(path: Seq<char>) -> bool {
    path.len() >= 2 && is_slash(path[0]) && is_slash(path[1])
}

/// Whether, in a path that opens with two slashes, `at` is where a server's name ends:
/// at the first slash behind that name, which is followed by the name of a share and
/// another slash.
pub open spec fn ends_server(path: Seq<char>, at: int) -> bool {
    &&& 2 < at < path.len() - 1
    &&& is_slash(path[at])
    &&& !is_slash(path[at + 1])
    &&& forall|i: int| 2 <= i < at ==> !is_slash(#[trigger] path[i])
    &&& at + 1 < greatest(last_index_of(path, '/'), last_index_of(path, '\\'))
}

/// Whether a path that opens with two slashes leads into a share of a server: the names
/// of both stand behind the slashes, and a slash behind them.
pub open spec fn leads_into_share(path: Seq<char>) -> bool {
    &&& path.len() > 2
    &&& path[2] != '?'
    &&& path[2] != '.'
    &&& exists|at: int| #[trigger] ends_server(path, at)
}

/// Whether a path is that of a file on a drive in its verbatim form: two backslashes, a
/// question mark, a backslash, the drive's letter and colon and a backslash, and no
/// slash anywhere.
pub open spec fn is_verbatim_drive(path: Seq<char>) -> bool {
    &&& path.len() > 6
    &&& path[0] == '\\'
    &&& path[1] == '\\'
    &&& path[2] == '?'
    &&& path[3] == '\\'
    &&& ('a' <= path[4] <= 'z' || 'A' <= path[4] <= 'Z')
    &&& path[5] == ':'
    &&& path[6] == '\\'
    &&& !path.contains('/')
}

/// Whether no platform takes the last name of a path for a part of a share or a drive:
/// the path does not open with two slashes, or leads into a share or onto a drive.
pub open spec fn opens_plainly(path: Seq<char>) -> bool {
    opens_with_two_slashes(path) ==> leads_into_share(path) || is_verbatim_drive(path)
}

/// Whether a path ends in a name on every platform: none takes its end for a part of a
/// share, and what follows the last slash, backslash or colon is neither empty nor one
/// or two dots.
pub open spec fn ends_in_name(path: Seq<char>) -> bool {
    &&& opens_plainly(path)
    &&& tail_name(path).len() > 0
    &&& tail_name(path) != seq!['.']
    &&& tail_name(path) != seq!['.', '.']
}

/// Where the last name of a path may start: behind the last slash; behind the last
/// slash or backslash; or behind a drive, in a path that holds neither.
pub open spec fn may_start_name(path: Seq<char>, at: int) -> bool {
    let slash = last_index_of(path, '/');
    let backslash = last_index_of(path, '\\');
    ||| at == slash + 1
    ||| at == greatest(slash, backslash) + 1
    ||| at == 2 && slash < 0 && backslash < 0 && path.len() > 2 && path[1] == ':'
}

/// Whether `name` is the last name of a path on some platform.
pub open spec fn may_be_name(path: Seq<char>, name: Seq<char>) -> bool {
    exists|at: int| #[trigger] may_start_name(path, at) && name == path.skip(at)
}

/// `std`'s `Path::file_name`: the last component of the path, if that is a name.
/// For a path that every platform reads alike this is the name that ends it. Where
/// a path ends in a name on every platform, that name is there, and starts behind
/// the last character that divides paths on the platform, also in a share or on a
/// drive in its verbatim form. Of other paths, such as those of a share itself or of a
/// device, nothing is said.
#[verifier::external_body]
pub(crate) fn path_file_name(path: &str) -> (r: Option<String>)
    ensures
        is_portable(path@) ==> text_view(r) == last_name(path@),
        ends_in_name(path@) ==> r is Some && may_be_name(path@, r->Some_0@),
{
    std::path::Path::new(path).file_name().map(|name| name.to_string_lossy().into_owned())
}

// ---------------------------------------------------------------------------
// Extensions
// ---------------------------------------------------------------------------

/// The extensions, in small letters, of files that go through the raw decoder.
pub open spec fn is_raw_extension(ext: Seq<char>) -> bool {
    ||| ext == "cr2"@
    ||| ext == "cr3"@
    ||| ext == "crw"@
    ||| ext == "nef"@
    ||| ext == "nrw"@
    ||| ext == "arw"@
    ||| ext == "srf"@
    ||| ext == "sr2"@
    ||| ext == "dng"@
    ||| ext == "raf"@
    ||| ext == "rw2"@
    ||| ext == "orf"@
    ||| ext == "pef"@
    ||| ext == "srw"@
    ||| ext == "raw"@
    ||| ext == "mrw"@
}

/// The extensions, in small letters, of files that are treated as images.
pub open spec fn is_image_extension(ext: Seq<char>) -> bool {
    ||| ext == "jpg"@
    ||| ext == "jpeg"@
    ||| ext == "png"@
    ||| ext == "tif"@
    ||| ext == "tiff"@
    ||| ext == "webp"@
    ||| ext == "bmp"@
    ||| ext == "cr2"@
    ||| ext == "cr3"@
    ||| ext == "crw"@
    ||| ext == "nef"@
    ||| ext == "nrw"@
    ||| ext == "arw"@
    ||| ext == "srf"@
    ||| ext == "sr2"@
    ||| ext == "dng"@
    ||| ext == "raf"@
    ||| ext == "rw2"@
    ||| ext == "orf"@
    ||| ext == "pef"@
    ||| ext == "srw"@
    ||| ext == "raw"@
    ||| ext == "mrw"@
}

/// Whether a file name has an extension of a camera raw format, in any case.
pub open spec fn names_raw(name: Seq<char>) -> bool {
    extension_of(name) matches Some(e) && is_raw_extension(ascii_lowercase(e))
}

/// Whether a file name has an extension of an image format, in any case.
pub open spec fn names_image(name: Seq<char>) -> bool {
    extension_of(name) matches Some(e) && is_image_extension(ascii_lowercase(e))
}

/// Whether a file name is that of a camera raw file.
pub fn is_raw_name(name: &str) -> (r: bool)
    ensures
        r == names_raw(name@),
{
    match split_name(name).1 {
        Some(ext) => {
            let e: &str = ext.as_str();
            reads_lowercased(e, "cr2")
                || reads_lowercased(e, "cr3")
                || reads_lowercased(e, "crw")
                || reads_lowercased(e, "nef")
                || reads_lowercased(e, "nrw")
                || reads_lowercased(e, "arw")
                || reads_lowercased(e, "srf")
                || reads_lowercased(e, "sr2")
                || reads_lowercased(e, "dng")
                || reads_lowercased(e, "raf")
                || reads_lowercased(e, "rw2")
                || reads_lowercased(e, "orf")
                || reads_lowercased(e, "pef")
                || reads_lowercased(e, "srw")
                || reads_lowercased(e, "raw")
                || reads_lowercased(e, "mrw")
        },
        None => false,
    }
}

/// Whether a file name is that of an image.
pub fn is_image_name(name: &str) -> (r: bool)
    ensures
        r == names_image(name@),
{
    match split_name(name).1 {
        Some(ext) => {
            let e: &str = ext.as_str();
            reads_lowercased(e, "jpg")
                || reads_lowercased(e, "jpeg")
                || reads_lowercased(e, "png")
                || reads_lowercased(e, "tif")
                || reads_lowercased(e, "tiff")
                || reads_lowercased(e, "webp")
                || reads_lowercased(e, "bmp")
                || reads_lowercased(e, "cr2")
                || reads_lowercased(e, "cr3")
                || reads_lowercased(e, "crw")
                || reads_lowercased(e, "nef")
                || reads_lowercased(e, "nrw")
                || reads_lowercased(e, "arw")
                || reads_lowercased(e, "srf")
                || reads_lowercased(e, "sr2")
                || reads_lowercased(e, "dng")
                || reads_lowercased(e, "raf")
                || reads_lowercased(e, "rw2")
                || reads_lowercased(e, "orf")
                || reads_lowercased(e, "pef")
                || reads_lowercased(e, "srw")
                || reads_lowercased(e, "raw")
                || reads_lowercased(e, "mrw")
        },
        None => false,
    }
}

// ---------------------------------------------------------------------------
// Paths
// ---------------------------------------------------------------------------

/// Whether every platform finds the same extension in a path, or none: the path
/// ends in a name, and where that name is hidden, with one dot at its front, no
/// platform takes what stands before the dot for a part of the name.
pub open spec fn shows_extension(path: Seq<char>) -> bool {
    &&& ends_in_name(path)
    &&& last_index_of(tail_name(path), '.') == 0 ==> tail_start(path) == 0 || path[tail_start(path)
        - 1] == '/'
}

/// The extensions of images hold no character that divides paths.
proof fn lemma_no_divider_in_extension(ext: Seq<char>, i: int)
    requires
        is_image_extension(ascii_lowercase(ext)),
        0 <= i < ext.len(),
    ensures
        !is_divider(ext[i]),
{
    reveal_strlit("jpg");
    reveal_strlit("jpeg");
    reveal_strlit("png");
    reveal_strlit("tif");
    reveal_strlit("tiff");
    reveal_strlit("webp");
    reveal_strlit("bmp");
    reveal_strlit("cr2");
    reveal_strlit("cr3");
    reveal_strlit("crw");
    reveal_strlit("nef");
    reveal_strlit("nrw");
    reveal_strlit("arw");
    reveal_strlit("srf");
    reveal_strlit("sr2");
    reveal_strlit("dng");
    reveal_strlit("raf");
    reveal_strlit("rw2");
    reveal_strlit("orf");
    reveal_strlit("pef");
    reveal_strlit("srw");
    reveal_strlit("raw");
    reveal_strlit("mrw");
    assert(ascii_lowercase(ext)[i] == ascii_lower(ext[i]));
    assert(ascii_lowercase(ext).len() == ext.len());
}

/// The last position of a character is the one with none of it behind.
proof fn lemma_last_index(s: Seq<char>, c: char, at: int)
    requires
        -1 <= at < s.len(),
        at >= 0 ==> s[at] == c,
        forall|i: int| at < i < s.len() ==> s[i] != c,
    ensures
        last_index_of(s, c) == at,
{
    last_index_of_is_last(s, c);
}

/// Wherever the last name of a path may start, its extension tells the same of it.
proof fn lemma_tail_tells(path: Seq<char>, at: int)
    requires
        shows_extension(path),
        may_start_name(path, at),
    ensures
        names_image(path.skip(at)) == names_image(tail_name(path)),
        names_raw(path.skip(at)) == names_raw(tail_name(path)),
{
    last_index_of_is_last(path, '/');
    last_index_of_is_last(path, '\\');
    last_index_of_is_last(path, ':');
    let (start, tail, name) = (tail_start(path), tail_name(path), path.skip(at));
    last_index_of_is_last(tail, '.');
    last_index_of_is_last(name, '.');
    let dot = last_index_of(tail, '.');
    assert(0 <= at <= start < path.len());
    assert(tail =~= name.skip(start - at));
    if at == start {
        assert(tail =~= name);
    } else if dot >= 0 {
        assert(dot > 0);
        assert forall|i: int| dot + start - at < i < name.len() implies name[i] != '.' by {
            assert(name[i] == tail[i - (start - at)]);
        }
        assert(name[dot + start - at] == tail[dot]);
        lemma_last_index(name, '.', dot + start - at);
        assert(name != seq!['.', '.']);
        assert(name.skip(stem_end(name) + 1) =~= tail.skip(stem_end(tail) + 1));
    } else {
        assert(is_divider(path[start - 1]));
        assert(name[start - 1 - at] == path[start - 1]);
        assert(extension_of(tail) is None);
        assert forall|i: int| start - 1 - at <= i < name.len() implies name[i] != '.' by {
            if i >= start - at {
                assert(name[i] == tail[i - (start - at)]);
            }
        }
        let before = last_index_of(name, '.');
        match extension_of(name) {
            Some(e) => {
                assert(e[start - 1 - at - (before + 1)] == path[start - 1]);
                if is_image_extension(ascii_lowercase(e)) {
                    lemma_no_divider_in_extension(e, start - 1 - at - (before + 1));
                }
            },
            None => {},
        }
    }
}

/// Whether `r` may be said of whether a path leads to an image: on paths that platforms
/// read alike, only what is so.
pub open spec fn tells_support(path: Seq<char>, r: bool) -> bool {
    &&& is_portable(path) ==> r == (last_name(path) matches Some(name) && names_image(name))
    &&& shows_extension(path) ==> r == names_image(tail_name(path))
}

/// Whether a path leads to a camera raw file.
pub fn is_raw_path(path: &str) -> (r: bool)
    ensures
        is_portable(path@) ==> r == (last_name(path@) matches Some(name) && names_raw(name)),
        shows_extension(path@) ==> r == names_raw(tail_name(path@)),
{
    match path_file_name(path) {
        Some(name) => {
            proof {
                if shows_extension(path@) {
                    let at = choose|at: int| #[trigger]
                        may_start_name(path@, at) && name@ == path@.skip(at);
                    lemma_tail_tells(path@, at);
                }
            }
            is_raw_name(name.as_str())
        },
        None => false,
    }
}

/// Whether a path leads to an image.
pub fn is_supported(path: &str) -> (r: bool)
    ensures
        tells_support(path@, r),
{
    match path_file_name(path) {
        Some(name) => {
            proof {
                if shows_extension(path@) {
                    let at = choose|at: int| #[trigger]
                        may_start_name(path@, at) && name@ == path@.skip(at);
                    lemma_tail_tells(path@, at);
                }
            }
            is_image_name(name.as_str())
        },
        None => false,
    }
}

/// Those of the first `n` paths that are marked, in order.
pub open spec fn marked(paths: Seq<String>, marks: Seq<bool>, n: int) -> Seq<String>
    decreases n,
{
    if n <= 0 {
        seq![]
    } else if marks[n - 1] {
        marked(paths, marks, n - 1).push(paths[n - 1])
    } else {
        marked(paths, marks, n - 1)
    }
}

/// Whether `marks` may be said of which of the paths lead to images.
pub open spec fn marks_supported(paths: Seq<String>, marks: Seq<bool>) -> bool {
    &&& marks.len() == paths.len()
    &&& forall|i: int|
        0 <= i < paths.len() ==> tells_support((#[trigger] paths[i])@, marks[i])
}

/// The paths that lead to images, in order.
pub fn supported_files(paths: &Vec<String>) -> (r: Vec<String>)
    ensures
        exists|marks: Seq<bool>| #[trigger]
            marks_supported(paths@, marks) && r@.map_values(|s: String| s@) == marked(
                paths@,
                marks,
                paths@.len() as int,
            ).map_values(|s: String| s@),
{
    let mut found: Vec<String> = Vec::new();
    let ghost mut marks: Seq<bool> = seq![];
    let mut i: usize = 0;
    assert(found@.map_values(|s: String| s@) =~= marked(paths@, marks, 0).map_values(
        |s: String| s@,
    ));
    while i < paths.len()
        invariant
            i <= paths@.len(),
            marks.len() == i,
            forall|k: int| 0 <= k < i ==> tells_support((#[trigger] paths@[k])@, marks[k]),
            found@.map_values(|s: String| s@) == marked(paths@, marks, i as int).map_values(
                |s: String| s@,
            ),
        decreases paths@.len() - i,
    {
        let ghost before: Seq<bool> = marks;
        let ghost held: Seq<String> = found@;
        let supported: bool = is_supported(paths[i].as_str());
        proof {
            marks = marks.push(supported);
            lemma_marks_so_far(paths@, before, marks, i as int);
        }
        if supported {
            let path: String = paths[i].as_str().to_owned();
            found.push(path);
            assert(found@.map_values(|s: String| s@) =~= held.map_values(|s: String| s@).push(
                path@,
            ));
            assert(marked(paths@, marks, i + 1).map_values(|s: String| s@) =~= marked(
                paths@,
                marks,
                i as int,
            ).map_values(|s: String| s@).push(paths@[i as int]@));
        }
        i = i + 1;
    }
    assert(marks_supported(paths@, marks));
    found
}

/// Marks that agree on the first paths pick the same of them.
proof fn lemma_marks_so_far(paths: Seq<String>, a: Seq<bool>, b: Seq<bool>, n: int)
    requires
        0 <= n <= a.len(),
        n <= b.len(),
        forall|i: int| 0 <= i < n ==> a[i] == b[i],
    ensures
        marked(paths, a, n) == marked(paths, b, n),
    decreases n,
{
    if n > 0 {
        lemma_marks_so_far(paths, a, b, n - 1);
    }
}

/// Whether a path ends in a dot and an extension, behind at least one character of
/// the name, which no platform takes for a part of a share.
pub open spec fn ends_in_extension(path: Seq<char>) -> bool {
    let dot = last_index_of(path, '.');
    &&& 0 < dot < path.len() - 1
    &&& !is_divider(path[dot - 1])
    &&& forall|i: int| dot < i < path.len() ==> !is_divider(#[trigger] path[i])
    &&& opens_plainly(path)
}

/// A path that ends in an extension shows it on every platform: whatever part of the
/// path a platform takes for the name, that is the extension of the name.
pub proof fn extension_shows(path: Seq<char>, name: Seq<char>)
    requires
        ends_in_extension(path),
        may_be_name(path, name),
    ensures
        shows_extension(path),
        name == path.skip(path.len() - name.len()),
        name.len() > path.len() - last_index_of(path, '.'),
        extension_of(name) == Some(path.skip(last_index_of(path, '.') + 1)),
        extension_of(tail_name(path)) == Some(path.skip(last_index_of(path, '.') + 1)),
{
    let dot = last_index_of(path, '.');
    let (start, tail) = (tail_start(path), tail_name(path));
    last_index_of_is_last(path, '.');
    last_index_of_is_last(path, '/');
    last_index_of_is_last(path, '\\');
    last_index_of_is_last(path, ':');
    assert(is_divider('/') && is_divider('\\') && is_divider(':') && !is_divider('.'));
    assert(start < dot) by {
        if start > 0 {
            assert(is_divider(path[start - 1]));
            assert(start - 1 <= dot);
        }
    }
    lemma_last_index(tail, '.', dot - start);
    assert(tail.skip(dot - start + 1) =~= path.skip(dot + 1));
    let at = choose|at: int| #[trigger] may_start_name(path, at) && name == path.skip(at);
    assert(0 <= at <= start);
    lemma_last_index(name, '.', dot - at);
    assert(name.skip(dot - at + 1) =~= path.skip(dot + 1));
}

/// Every raw file is an image.
pub proof fn raw_files_are_images(name: Seq<char>)
    requires
        names_raw(name),
    ensures
        names_image(name),
{
}

/// The case of an extension does not count: names whose extensions read the same
/// in small letters are alike.
pub proof fn case_of_extensions_does_not_count(a: Seq<char>, b: Seq<char>)
    requires
        extension_of(a) is Some,
        extension_of(b) is Some,
        ascii_lowercase(extension_of(a)->Some_0) == ascii_lowercase(extension_of(b)->Some_0),
    ensures
        names_raw(a) == names_raw(b),
        names_image(a) == names_image(b),
{
}

// ---------------------------------------------------------------------------
// The formats, by name
// ---------------------------------------------------------------------------

/// The sixteen formats of camera raw files are told by their extensions: no other
/// extension is raw, and each of these is, behind any stem.
pub proof fn raw_formats_by_name(stem: Seq<char>, ext: Seq<char>)
    requires
        stem.len() > 0,
        ext.len() > 0,
        !ext.contains('.'),
    ensures
        names_raw(stem.push('.') + ext) <==> ascii_lowercase(ext) == seq!['c', 'r', '2']
            || ascii_lowercase(ext) == seq!['c', 'r', '3'] || ascii_lowercase(ext) == seq![
            'c',
            'r',
            'w',
        ] || ascii_lowercase(ext) == seq!['n', 'e', 'f'] || ascii_lowercase(ext) == seq![
            'n',
            'r',
            'w',
        ] || ascii_lowercase(ext) == seq!['a', 'r', 'w'] || ascii_lowercase(ext) == seq![
            's',
            'r',
            'f',
        ] || ascii_lowercase(ext) == seq!['s', 'r', '2'] || ascii_lowercase(ext) == seq![
            'd',
            'n',
            'g',
        ] || ascii_lowercase(ext) == seq!['r', 'a', 'f'] || ascii_lowercase(ext) == seq![
            'r',
            'w',
            '2',
        ] || ascii_lowercase(ext) == seq!['o', 'r', 'f'] || ascii_lowercase(ext) == seq![
            'p',
            'e',
            'f',
        ] || ascii_lowercase(ext) == seq!['s', 'r', 'w'] || ascii_lowercase(ext) == seq![
            'r',
            'a',
            'w',
        ] || ascii_lowercase(ext) == seq!['m', 'r', 'w'],
{
    extension_follows_the_last_dot(stem, ext);
    lemma_raw_letters();
}

/// An image that is no raw file is a JPEG, PNG, TIFF, WebP or BMP file by its extension.
pub proof fn other_formats_by_name(stem: Seq<char>, ext: Seq<char>)
    requires
        stem.len() > 0,
        ext.len() > 0,
        !ext.contains('.'),
    ensures
        names_image(stem.push('.') + ext) <==> names_raw(stem.push('.') + ext)
            || ascii_lowercase(ext) == seq!['j', 'p', 'g'] || ascii_lowercase(ext) == seq![
            'j',
            'p',
            'e',
            'g',
        ] || ascii_lowercase(ext) == seq!['p', 'n', 'g'] || ascii_lowercase(ext) == seq![
            't',
            'i',
            'f',
        ] || ascii_lowercase(ext) == seq!['t', 'i', 'f', 'f'] || ascii_lowercase(ext) == seq![
            'w',
            'e',
            'b',
            'p',
        ] || ascii_lowercase(ext) == seq!['b', 'm', 'p'],
{
    extension_follows_the_last_dot(stem, ext);
    reveal_strlit("jpg");
    reveal_strlit("jpeg");
    reveal_strlit("png");
    reveal_strlit("tif");
    reveal_strlit("tiff");
    reveal_strlit("webp");
    reveal_strlit("bmp");
    assert("jpg"@ =~= seq!['j', 'p', 'g']);
    assert("jpeg"@ =~= seq!['j', 'p', 'e', 'g']);
    assert("png"@ =~= seq!['p', 'n', 'g']);
    assert("tif"@ =~= seq!['t', 'i', 'f']);
    assert("tiff"@ =~= seq!['t', 'i', 'f', 'f']);
    assert("webp"@ =~= seq!['w', 'e', 'b', 'p']);
    assert("bmp"@ =~= seq!['b', 'm', 'p']);
}

proof fn lemma_raw_letters()
    ensures
        "cr2"@ == seq!['c', 'r', '2'],
        "cr3"@ == seq!['c', 'r', '3'],
        "crw"@ == seq!['c', 'r', 'w'],
        "nef"@ == seq!['n', 'e', 'f'],
        "nrw"@ == seq!['n', 'r', 'w'],
        "arw"@ == seq!['a', 'r', 'w'],
        "srf"@ == seq!['s', 'r', 'f'],
        "sr2"@ == seq!['s', 'r', '2'],
        "dng"@ == seq!['d', 'n', 'g'],
        "raf"@ == seq!['r', 'a', 'f'],
        "rw2"@ == seq!['r', 'w', '2'],
        "orf"@ == seq!['o', 'r', 'f'],
        "pef"@ == seq!['p', 'e', 'f'],
        "srw"@ == seq!['s', 'r', 'w'],
        "raw"@ == seq!['r', 'a', 'w'],
        "mrw"@ == seq!['m', 'r', 'w'],
{
    reveal_strlit("cr2");
    reveal_strlit("cr3");
    reveal_strlit("crw");
    reveal_strlit("nef");
    reveal_strlit("nrw");
    reveal_strlit("arw");
    reveal_strlit("srf");
    reveal_strlit("sr2");
    reveal_strlit("dng");
    reveal_strlit("raf");
    reveal_strlit("rw2");
    reveal_strlit("orf");
    reveal_strlit("pef");
    reveal_strlit("srw");
    reveal_strlit("raw");
    reveal_strlit("mrw");
}

/// A name without a dot, or with no other than the one it opens with, is no image.
pub proof fn names_without_an_extension_are_no_images(name: Seq<char>)
    requires
        forall|i: int| 0 < i < name.len() ==> #[trigger] name[i] != '.',
    ensures
        !names_image(name),
        !names_raw(name),
{
    last_index_of_is_last(name, '.');
}

/// The files that are picked are those that are marked, in the order of the paths: with
/// one path more, that path comes behind them where it is marked, and else nothing.
pub proof fn marked_paths_stay_in_order(paths: Seq<String>, marks: Seq<bool>, n: int)
    requires
        0 <= n < paths.len(),
    ensures
        marked(paths, marks, 0).len() == 0,
        marks[n] ==> marked(paths, marks, n + 1) == marked(paths, marks, n).push(paths[n]),
        !marks[n] ==> marked(paths, marks, n + 1) == marked(paths, marks, n),
{
}

/// A path leads to the name behind its last slash, if that is none of one or two dots.
pub proof fn paths_lead_to_their_last_name(folder: Seq<char>, name: Seq<char>)
    requires
        name.len() > 0,
        !name.contains('/'),
        name != seq!['.'],
        name != seq!['.', '.'],
    ensures
        last_name(folder.push('/') + name) == Some(name),
        last_name(name) == Some(name),
{
    lemma_behind_the_slash(folder, name);
    last_index_of_is_last(name, '/');
    assert(after_slash(name) =~= name);
}

proof fn lemma_behind_the_slash(folder: Seq<char>, name: Seq<char>)
    requires
        !name.contains('/'),
    ensures
        last_index_of(folder.push('/') + name, '/') == folder.len(),
        after_slash(folder.push('/') + name) == name,
{
    let path = folder.push('/') + name;
    last_index_of_is_last(path, '/');
    assert(path[folder.len() as int] == '/');
    assert forall|i: int| folder.len() < i < path.len() implies path[i] != '/' by {
        assert(path[i] == name[i - folder.len() - 1]);
    }
    assert(after_slash(path) =~= name);
}

/// A slash behind a path does not count.
pub proof fn slashes_at_the_end_do_not_count(path: Seq<char>)
    ensures
        last_name(path.push('/')) == last_name(path),
{
    let with = path.push('/');
    let none = Seq::<char>::empty();
    assert(with =~= path.push('/') + none);
    lemma_behind_the_slash(path, none);
    assert(with.take(path.len() as int) =~= path);
    assert(none != seq!['.', '.']) by {
        assert(seq!['.', '.'].len() == 2);
    }
}

/// Two dots at the end lead back up: such a path ends in no name.
pub proof fn two_dots_are_no_name(folder: Seq<char>)
    ensures
        last_name(folder.push('/') + seq!['.', '.']) is None,
{
    let dots = seq!['.', '.'];
    assert(dots[0] != '/' && dots[1] != '/');
    lemma_behind_the_slash(folder, dots);
}

/// What follows the last slash, backslash or colon is the end of a path on every
/// platform: a name without any of them, behind one of them.
pub proof fn names_behind_a_divider(folder: Seq<char>, divider: char, name: Seq<char>)
    requires
        divider == '/' || divider == '\\' || divider == ':',
        !name.contains('/'),
        !name.contains('\\'),
        !name.contains(':'),
    ensures
        tail_name(folder.push(divider) + name) == name,
        tail_name(name) == name,
{
    let path = folder.push(divider) + name;
    last_index_of_is_last(path, '/');
    last_index_of_is_last(path, '\\');
    last_index_of_is_last(path, ':');
    assert(path[folder.len() as int] == divider);
    assert forall|i: int| folder.len() < i < path.len() implies !is_divider(path[i]) by {
        assert(path[i] == name[i - folder.len() - 1]);
    }
    assert(tail_start(path) == folder.len() + 1);
    assert(tail_name(path) =~= name);
    last_index_of_is_last(name, '/');
    last_index_of_is_last(name, '\\');
    last_index_of_is_last(name, ':');
    assert(tail_name(name) =~= name);
}

/// A path without backslashes, behind whose last slash stands a name without colons,
/// leads to an image exactly where that name is one's.
pub proof fn support_is_told_by_the_last_name(folder: Seq<char>, name: Seq<char>, r: bool)
    requires
        tells_support(folder.push('/') + name, r),
        !folder.contains('\\'),
        !name.contains('\\'),
        !name.contains('/'),
        !name.contains(':'),
        folder.len() > 1,
        folder[0] != '/',
        name.len() > 0,
        name != seq!['.'],
        name != seq!['.', '.'],
    ensures
        r == names_image(name),
{
    let path = folder.push('/') + name;
    paths_lead_to_their_last_name(folder, name);
    assert forall|i: int| 0 <= i < path.len() implies path[i] != '\\' by {
        if i < folder.len() {
            assert(path[i] == folder[i]);
        } else if i > folder.len() {
            assert(path[i] == name[i - folder.len() - 1]);
        }
    }
    assert(path[0] == folder[0]);
    assert(is_portable(path));
}

} // verus!
