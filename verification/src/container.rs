//! Where a document container lives and how its asset files are named:
//! detection of the source kind of a path, image format detection from magic
//! bytes, and the naming of asset files inside a container.
use vstd::prelude::*;
use vstd::string::{StrSliceExecFns, StringExecFns};
use crate::asset::{image_added, AssetStore};
use crate::style::ImageSource;
use crate::text::{str_eq, str_ends_with, str_starts_with};

verus! {

broadcast use vstd::seq_lib::group_seq_properties;

/// Where a container was loaded from (or will be saved to).
#[derive(Debug, Clone)]
pub enum OdeSource {
    /// A packed `.ode` ZIP archive.
    Packed(String),
    /// An unpacked directory holding `document.json`, `meta.json` and `assets/`.
    Unpacked(String),
    /// Read from standard input (not saveable without an explicit path).
    Stdin,
    /// A single legacy `.ode.json` file (document only).
    LegacyJson(String),
}

/// What the file system says about a path: whether it is an existing
/// directory, an existing file, and whether that file starts with the ZIP
/// signature `PK\x03\x04`.
#[derive(Debug, Clone, Copy)]
pub struct PathProbe {
    pub is_dir: bool,
    pub is_file: bool,
    pub zip_magic: bool,
}

/// Model of a source kind and its path.
pub open spec fn source_view(s: OdeSource) -> (int, Seq<char>) {
    match s {
        OdeSource::Packed(p) => (0, p@),
        OdeSource::Unpacked(p) => (1, p@),
        OdeSource::Stdin => (2, Seq::empty()),
        OdeSource::LegacyJson(p) => (3, p@),
    }
}

/// Whether `s` ends with `suffix`.
pub open spec fn ends_with(s: Seq<char>, suffix: Seq<char>) -> bool {
    suffix.len() <= s.len() && s.subrange(s.len() - suffix.len(), s.len() as int) == suffix
}

/// Whether `s` starts with `prefix`.
pub open spec fn starts_with(s: Seq<char>, prefix: Seq<char>) -> bool {
    prefix.len() <= s.len() && s.subrange(0, prefix.len() as int) == prefix
}

impl OdeSource {
    /// The kind of source a path denotes: `-` is standard input; an existing
    /// directory is unpacked; an existing file is packed when it starts with
    /// the ZIP signature and legacy JSON otherwise; a path that does not
    /// exist is unpacked when it ends with `/`, packed when it ends with
    /// `.ode`, and legacy JSON otherwise.
    pub open spec fn spec_detect(path: Seq<char>, probe: PathProbe) -> (int, Seq<char>) {
        if path == seq!['-'] {
            (2, Seq::empty())
        } else if probe.is_dir {
            (1, path)
        } else if probe.is_file {
            if probe.zip_magic {
                (0, path)
            } else {
                (3, path)
            }
        } else if ends_with(path, seq!['/']) {
            (1, path)
        } else if ends_with(path, seq!['.', 'o', 'd', 'e']) {
            (0, path)
        } else {
            (3, path)
        }
    }

    /// Detect the source kind of `path` from what the file system reports
    /// about it (see `spec_detect`).
    pub fn detect(path: &str, probe: PathProbe) -> (r: Self)
        ensures
            source_view(r) == Self::spec_detect(path@, probe),
    {
        proof {
            reveal_strlit("-");
            reveal_strlit("/");
            reveal_strlit(".ode");
            assert("-"@ =~= seq!['-']);
            assert("/"@ =~= seq!['/']);
            assert(".ode"@ =~= seq!['.', 'o', 'd', 'e']);
        }
        if str_eq(path, "-") {
            return OdeSource::Stdin;
        }
        if probe.is_dir {
            return OdeSource::Unpacked(String::from_str(path));
        }
        if probe.is_file {
            if probe.zip_magic {
                return OdeSource::Packed(String::from_str(path));
            }
            return OdeSource::LegacyJson(String::from_str(path));
        }
        if str_ends_with(path, "/") {
            OdeSource::Unpacked(String::from_str(path))
        } else if str_ends_with(path, ".ode") {
            OdeSource::Packed(String::from_str(path))
        } else {
            OdeSource::LegacyJson(String::from_str(path))
        }
    }
}

/// Whether `data` starts with the bytes `magic`.
pub open spec fn has_prefix(data: Seq<u8>, magic: Seq<u8>) -> bool {
    data.len() >= magic.len() && data.subrange(0, magic.len() as int) == magic
}

/// The file extension for image bytes, from their magic bytes: PNG, JPEG,
/// GIF, WebP (a RIFF file with `WEBP` at offset 8), SVG (`<svg`), BMP, and
/// `bin` for anything else.
pub open spec fn image_ext(data: Seq<u8>) -> Seq<char> {
    if has_prefix(data, seq![0x89u8, 0x50u8, 0x4Eu8, 0x47u8, 0x0Du8, 0x0Au8, 0x1Au8, 0x0Au8]) {
        seq!['p', 'n', 'g']
    } else if has_prefix(data, seq![0xFFu8, 0xD8u8, 0xFFu8]) {
        seq!['j', 'p', 'g']
    } else if has_prefix(data, seq![0x47u8, 0x49u8, 0x46u8, 0x38u8]) {
        seq!['g', 'i', 'f']
    } else if has_prefix(data, seq![0x52u8, 0x49u8, 0x46u8, 0x46u8]) {
        if data.len() >= 12 && data.subrange(8, 12) == seq![0x57u8, 0x45u8, 0x42u8, 0x50u8] {
            seq!['w', 'e', 'b', 'p']
        } else {
            seq!['b', 'i', 'n']
        }
    } else if has_prefix(data, seq![0x3Cu8, 0x73u8, 0x76u8, 0x67u8]) {
        seq!['s', 'v', 'g']
    } else if has_prefix(data, seq![0x42u8, 0x4Du8]) {
        seq!['b', 'm', 'p']
    } else {
        seq!['b', 'i', 'n']
    }
}

/// Whether `data` starts with `magic` (executable form of `has_prefix`).
fn starts_with_bytes(data: &[u8], magic: &[u8]) -> (r: bool)
    ensures
        r == has_prefix(data@, magic@),
{
    if data.len() < magic.len() {
        return false;
    }
    let mut i: usize = 0;
    while i < magic.len()
        invariant
            0 <= i <= magic@.len(),
            magic@.len() <= data@.len(),
            forall|j: int| 0 <= j < i ==> data@[j] == magic@[j],
        decreases magic@.len() - i,
    {
        if data[i] != magic[i] {
            assert(data@.subrange(0, magic@.len() as int)[i as int] != magic@[i as int]);
            return false;
        }
        i += 1;
    }
    assert(data@.subrange(0, magic@.len() as int) =~= magic@);
    true
}

/// Detect the image format from magic bytes and return its file extension.
pub fn detect_image_ext(data: &[u8]) -> (r: &'static str)
    ensures
        r@ == image_ext(data@),
{
    proof {
        reveal_strlit("png");
        reveal_strlit("jpg");
        reveal_strlit("gif");
        reveal_strlit("webp");
        reveal_strlit("bin");
        reveal_strlit("svg");
        reveal_strlit("bmp");
    }
    let png: [u8; 8] = [0x89, 0x50, 0x4E, 0x47, 0x0D, 0x0A, 0x1A, 0x0A];
    let jpg: [u8; 3] = [0xFF, 0xD8, 0xFF];
    let gif: [u8; 4] = [0x47, 0x49, 0x46, 0x38];
    let riff: [u8; 4] = [0x52, 0x49, 0x46, 0x46];
    let svg: [u8; 4] = [0x3C, 0x73, 0x76, 0x67];
    let bmp: [u8; 2] = [0x42, 0x4D];
    assert(png@ =~= seq![0x89u8, 0x50u8, 0x4Eu8, 0x47u8, 0x0Du8, 0x0Au8, 0x1Au8, 0x0Au8]);
    assert(jpg@ =~= seq![0xFFu8, 0xD8u8, 0xFFu8]);
    assert(gif@ =~= seq![0x47u8, 0x49u8, 0x46u8, 0x38u8]);
    assert(riff@ =~= seq![0x52u8, 0x49u8, 0x46u8, 0x46u8]);
    assert(svg@ =~= seq![0x3Cu8, 0x73u8, 0x76u8, 0x67u8]);
    assert(bmp@ =~= seq![0x42u8, 0x4Du8]);
    if starts_with_bytes(data, png.as_slice()) {
        "png"
    } else if starts_with_bytes(data, jpg.as_slice()) {
        "jpg"
    } else if starts_with_bytes(data, gif.as_slice()) {
        "gif"
    } else if starts_with_bytes(data, riff.as_slice()) {
        if data.len() >= 12 && data[8] == 0x57 && data[9] == 0x45 && data[10] == 0x42 && data[11]
            == 0x50 {
            assert(data@.subrange(8, 12) =~= seq![0x57u8, 0x45u8, 0x42u8, 0x50u8]);
            "webp"
        } else {
            proof {
                if data@.len() >= 12 && data@.subrange(8, 12) == seq![0x57u8, 0x45u8, 0x42u8, 0x50u8] {
                    assert(data@.subrange(8, 12)[0] == data@[8]);
                    assert(data@.subrange(8, 12)[1] == data@[9]);
                    assert(data@.subrange(8, 12)[2] == data@[10]);
                    assert(data@.subrange(8, 12)[3] == data@[11]);
                }
            }
            "bin"
        }
    } else if starts_with_bytes(data, svg.as_slice()) {
        "svg"
    } else if starts_with_bytes(data, bmp.as_slice()) {
        "bmp"
    } else {
        "bin"
    }
}

/// The text after the last `.` of `s` (all of `s` when it has no `.`).
pub open spec fn after_last_dot(s: Seq<char>) -> Seq<char>
    decreases s.len(),
{
    if s.len() == 0 {
        s
    } else if s.last() == '.' {
        Seq::empty()
    } else {
        after_last_dot(s.drop_last()).push(s.last())
    }
}

/// The text before the first `.` of `s` (all of `s` when it has no `.`).
pub open spec fn before_first_dot(s: Seq<char>) -> Seq<char>
    decreases s.len(),
{
    if s.len() == 0 {
        s
    } else if s[0] == '.' {
        Seq::empty()
    } else {
        seq![s[0]] + before_first_dot(s.drop_first())
    }
}

/// The prefix under which an asset key is referenced: `assets/{hash}.`.
pub open spec fn asset_prefix(hash: Seq<char>) -> Seq<char> {
    seq!['a', 's', 's', 'e', 't', 's', '/'] + hash + seq!['.']
}

/// The extension an asset key is referenced with: among the linked image
/// paths of a document (in document order), the first one under
/// `assets/{hash}.` gives the text after its last `.`.
pub open spec fn asset_ext_in(paths: Seq<Seq<char>>, hash: Seq<char>, i: int) -> Option<Seq<char>>
    decreases paths.len() - i,
{
    if i < 0 || i >= paths.len() {
        None
    } else if starts_with(paths[i], asset_prefix(hash)) {
        Some(after_last_dot(paths[i]))
    } else {
        asset_ext_in(paths, hash, i + 1)
    }
}

/// The text after the last `.` of a string.
fn text_after_last_dot(s: &str) -> (r: String)
    ensures
        r@ == after_last_dot(s@),
{
    let n = s.unicode_len();
    let mut i: usize = n;
    while i > 0 && s.get_char(i - 1) != '.'
        invariant
            0 <= i <= n,
            n == s@.len(),
            forall|j: int| i <= j < n ==> s@[j] != '.',
        decreases i,
    {
        i -= 1;
    }
    proof {
        lemma_after_last_dot(s@, i as int);
    }
    String::from_str(s.substring_char(i, n))
}

/// `after_last_dot` is the suffix after position `i` when `i` is the
/// position just after the last dot (or 0 when there is none).
proof fn lemma_after_last_dot(s: Seq<char>, i: int)
    requires
        0 <= i <= s.len(),
        forall|j: int| i <= j < s.len() ==> s[j] != '.',
        i == 0 || s[i - 1] == '.',
    ensures
        after_last_dot(s) == s.subrange(i, s.len() as int),
    decreases s.len(),
{
    if s.len() == 0 {
    } else if i == s.len() {
        assert(s.last() == '.');
        assert(s.subrange(i, s.len() as int) =~= Seq::<char>::empty());
    } else {
        lemma_after_last_dot(s.drop_last(), i);
        assert(s.subrange(i, s.len() as int) =~= s.drop_last().subrange(i, s.len() - 1).push(
            s.last(),
        ));
    }
}

/// `before_first_dot` is the prefix up to position `i` when `i` is the
/// position of the first dot (or the length when there is none).
proof fn lemma_before_first_dot(s: Seq<char>, i: int)
    requires
        0 <= i <= s.len(),
        forall|j: int| 0 <= j < i ==> s[j] != '.',
        i == s.len() || s[i] == '.',
    ensures
        before_first_dot(s) == s.subrange(0, i),
    decreases s.len(),
{
    if s.len() == 0 {
    } else if i == 0 {
        assert(s.subrange(0, 0) =~= Seq::<char>::empty());
    } else {
        lemma_before_first_dot(s.drop_first(), i - 1);
        assert(s.subrange(0, i) =~= seq![s[0]] + s.drop_first().subrange(0, i - 1));
    }
}

/// The file extension for an asset key, found among the document's linked
/// image paths (listed in document order).
pub fn find_asset_ext(linked_paths: &Vec<String>, hash: &str) -> (r: Option<String>)
    ensures
        match r {
            Some(e) => asset_ext_in(linked_paths@.map_values(|p: String| p@), hash@, 0) == Some(
                e@,
            ),
            None => asset_ext_in(linked_paths@.map_values(|p: String| p@), hash@, 0) is None,
        },
{
    let ghost paths = linked_paths@.map_values(|p: String| p@);
    let mut prefix = String::from_str("assets/");
    prefix.append(hash);
    prefix.append(".");
    proof {
        reveal_strlit("assets/");
        reveal_strlit(".");
        assert("assets/"@ =~= seq!['a', 's', 's', 'e', 't', 's', '/']);
        assert("."@ =~= seq!['.']);
        assert(prefix@ =~= asset_prefix(hash@));
    }
    let mut i: usize = 0;
    while i < linked_paths.len()
        invariant
            0 <= i <= linked_paths@.len(),
            paths == linked_paths@.map_values(|p: String| p@),
            prefix@ == asset_prefix(hash@),
            asset_ext_in(paths, hash@, 0) == asset_ext_in(paths, hash@, i as int),
        decreases linked_paths@.len() - i,
    {
        assert(paths[i as int] == linked_paths@[i as int]@);
        if str_starts_with(linked_paths[i].as_str(), prefix.as_str()) {
            return Some(text_after_last_dot(linked_paths[i].as_str()));
        }
        i += 1;
    }
    None
}

/// The asset key of a ZIP entry named `assets/{key}.{ext}`: the text of the
/// file name before its first `.`; `None` for entries outside `assets/`.
pub fn asset_key_of_entry(name: &str) -> (r: Option<String>)
    ensures
        match r {
            Some(k) => starts_with(name@, seq!['a', 's', 's', 'e', 't', 's', '/']) && k@
                == before_first_dot(name@.subrange(7, name@.len() as int)),
            None => !starts_with(name@, seq!['a', 's', 's', 'e', 't', 's', '/']),
        },
{
    proof {
        reveal_strlit("assets/");
        assert("assets/"@ =~= seq!['a', 's', 's', 'e', 't', 's', '/']);
    }
    if !str_starts_with(name, "assets/") {
        return None;
    }
    let n = name.unicode_len();
    let rest = name.substring_char(7, n);
    let m = rest.unicode_len();
    let mut i: usize = 0;
    while i < m && rest.get_char(i) != '.'
        invariant
            0 <= i <= m,
            m == rest@.len(),
            forall|j: int| 0 <= j < i ==> rest@[j] != '.',
        decreases m - i,
    {
        i += 1;
    }
    proof {
        lemma_before_first_dot(rest@, i as int);
    }
    Some(String::from_str(rest.substring_char(0, i)))
}

/// Whether an asset with this extension is stored in a packed container
/// without compression (already-compressed image formats).
pub fn stored_uncompressed(ext: &str) -> (r: bool)
    ensures
        r == (ext@ == "png"@ || ext@ == "jpg"@ || ext@ == "jpeg"@ || ext@ == "webp"@ || ext@
            == "gif"@),
{
    str_eq(ext, "png") || str_eq(ext, "jpg") || str_eq(ext, "jpeg") || str_eq(ext, "webp")
        || str_eq(ext, "gif")
}

/// Move the bytes of an embedded image source into the asset store: the
/// bytes are added (as `add_image` does, with the extension their magic
/// bytes give) and the source becomes a link to the returned path; a linked
/// source stays as it is.
pub fn extract_embedded_source(src: ImageSource, assets: &mut AssetStore) -> (r: ImageSource)
    requires
        old(assets).spec_len() + 3 < u64::MAX,
    ensures
        match src {
            ImageSource::Linked { path } => {
                &&& r matches ImageSource::Linked { path: p } && p@ == path@
                &&& final(assets).spec_entries() == old(assets).spec_entries()
            },
            ImageSource::Embedded { data } => r matches ImageSource::Linked { path: p }
                && image_added(
                old(assets).spec_entries(),
                data@,
                image_ext(data@),
                p@,
                final(assets).spec_entries(),
            ),
        },
{
    match src {
        ImageSource::Linked { path } => ImageSource::Linked { path },
        ImageSource::Embedded { data } => {
            let ext = detect_image_ext(data.as_slice());
            let path = assets.add_image(data, ext);
            ImageSource::Linked { path }
        },
    }
}

/// Law: image bytes are named by their signature: `\x89PNG\r\n\x1a\n` is
/// "png", `\xFF\xD8\xFF` is "jpg", `GIF8` is "gif", `RIFF` with `WEBP` at
/// offset 8 is "webp", `<svg` is "svg" and `BM` is "bmp".
pub proof fn law_image_ext_by_signature(data: Seq<u8>)
    ensures
        data.len() >= 8 && data[0] == 0x89 && data[1] == 0x50 && data[2] == 0x4E && data[3] == 0x47
            && data[4] == 0x0D && data[5] == 0x0A && data[6] == 0x1A && data[7] == 0x0A
            ==> image_ext(data) == "png"@,
        data.len() >= 3 && data[0] == 0xFF && data[1] == 0xD8 && data[2] == 0xFF ==> image_ext(data)
            == "jpg"@,
        data.len() >= 4 && data[0] == 0x47 && data[1] == 0x49 && data[2] == 0x46 && data[3] == 0x38
            ==> image_ext(data) == "gif"@,
        data.len() >= 12 && data[0] == 0x52 && data[1] == 0x49 && data[2] == 0x46 && data[3] == 0x46
            && data[8] == 0x57 && data[9] == 0x45 && data[10] == 0x42 && data[11] == 0x50
            ==> image_ext(data) == "webp"@,
        data.len() >= 4 && data[0] == 0x3C && data[1] == 0x73 && data[2] == 0x76 && data[3] == 0x67
            ==> image_ext(data) == "svg"@,
        data.len() >= 2 && data[0] == 0x42 && data[1] == 0x4D ==> image_ext(data) == "bmp"@,
{
    reveal_strlit("png");
    reveal_strlit("jpg");
    reveal_strlit("gif");
    reveal_strlit("webp");
    reveal_strlit("svg");
    reveal_strlit("bmp");
    if data.len() >= 8 {
        assert(data.subrange(0, 8)[0] == data[0]);
        if data[0] == 0x89 && data[1] == 0x50 && data[2] == 0x4E && data[3] == 0x47 && data[4] == 0x0D
            && data[5] == 0x0A && data[6] == 0x1A && data[7] == 0x0A {
            assert(data.subrange(0, 8) =~= seq![0x89u8, 0x50u8, 0x4Eu8, 0x47u8, 0x0Du8, 0x0Au8, 0x1Au8, 0x0Au8]);
        }
    }
    if data.len() >= 3 {
        assert(data.subrange(0, 3)[0] == data[0]);
        if data[0] == 0xFF && data[1] == 0xD8 && data[2] == 0xFF {
            assert(data.subrange(0, 3) =~= seq![0xFFu8, 0xD8u8, 0xFFu8]);
        }
    }
    if data.len() >= 4 {
        assert(data.subrange(0, 4)[0] == data[0]);
        if data[0] == 0x47 && data[1] == 0x49 && data[2] == 0x46 && data[3] == 0x38 {
            assert(data.subrange(0, 4) =~= seq![0x47u8, 0x49u8, 0x46u8, 0x38u8]);
        }
        if data[0] == 0x52 && data[1] == 0x49 && data[2] == 0x46 && data[3] == 0x46 {
            assert(data.subrange(0, 4) =~= seq![0x52u8, 0x49u8, 0x46u8, 0x46u8]);
            if data.len() >= 12 && data[8] == 0x57 && data[9] == 0x45 && data[10] == 0x42 && data[11]
                == 0x50 {
                assert(data.subrange(8, 12) =~= seq![0x57u8, 0x45u8, 0x42u8, 0x50u8]);
            }
        }
        if data[0] == 0x3C && data[1] == 0x73 && data[2] == 0x76 && data[3] == 0x67 {
            assert(data.subrange(0, 4) =~= seq![0x3Cu8, 0x73u8, 0x76u8, 0x67u8]);
        }
    }
    if data.len() >= 2 {
        assert(data.subrange(0, 2)[0] == data[0]);
        if data[0] == 0x42 && data[1] == 0x4D {
            assert(data.subrange(0, 2) =~= seq![0x42u8, 0x4Du8]);
        }
    }
}

} // verus!
