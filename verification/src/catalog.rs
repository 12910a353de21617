//! The icon catalogs: numbered PNG files, ordered by their number, paired
//! with the lines of the name (and description) texts and decoded to RGBA.

use vstd::prelude::*;
use crate::order::{comes_before, is_key_order, key_order};
use crate::text::{all_digits, decimal_value, lemma_parse_digits, chars_equal, chars_of, lines_of, parse_i16_chars, parse_i16_spec, split_lines, strings_view};

verus! {

broadcast use vstd::string::group_string_axioms;

/// A file of the embedded image folder: its path and its bytes.
pub struct EmbeddedFile {
    pub path: String,
    pub contents: Vec<u8>,
}

/// A decoded image: `width` by `height` pixels, four bytes (RGBA) each.
pub struct RgbaPixels {
    pub width: u32,
    pub height: u32,
    pub pixels: Vec<u8>,
}

/// One entry of a catalog.
pub struct Icon {
    pub image: RgbaPixels,
    pub name: String,
    pub description: String,
    /// The position, among the files the catalog was built from, of the
    /// file whose bytes were decoded for this entry.
    pub file: usize,
}

/// Why a catalog could not be built.
#[derive(Debug, PartialEq, Eq, Structural)]
pub enum CatalogError {
    /// The file at this position has a path that is not the folder, a
    /// number and `.png`.
    BadFileName(usize),
    /// The file listed at this rank of the catalog did not decode.
    UndecodableImage(usize),
}

// ---------------------------------------------------------------------------
// Decoding
// ---------------------------------------------------------------------------

#[verifier::external_type_specification]
#[verifier::external_body]
pub struct ExImageError(image::ImageError);

/// `image::load_from_memory` (the format guessed from the bytes), its image
/// turned into RGBA by `DynamicImage::into_rgba8` and `ImageBuffer::into_raw`.
/// Trusted: a decoded image's buffer holds at least four bytes per pixel
/// (what `ImageBuffer::from_raw` checks). Which bytes decode, and to what
/// pixels, is left open: the format guess and the decoders consult the image
/// crate's format and decoding hooks, which any code of the process may
/// register at run time.
#[verifier::external_body]
fn load_rgba(bytes: &[u8]) -> (r: Result<RgbaPixels, image::ImageError>)
    ensures
        r matches Ok(px) ==> px.pixels@.len() >= 4 * px.width * px.height,
{
    match image::load_from_memory(bytes) {
        Ok(img) => {
            let rgba = img.into_rgba8();
            let (width, height) = (rgba.width(), rgba.height());
            Ok(RgbaPixels { width, height, pixels: rgba.into_raw() })
        },
        Err(e) => Err(e),
    }
}

/// Decodes an embedded image (its format guessed from the bytes) to RGBA
/// pixels; `None` where the image crate does not decode the bytes.
pub fn decode_image(bytes: &Vec<u8>) -> (r: Option<RgbaPixels>)
    ensures
        r matches Some(px) ==> px.pixels@.len() >= 4 * px.width * px.height,
{
    match load_rgba(bytes.as_slice()) {
        Ok(px) => Some(px),
        Err(_) => None,
    }
}

// ---------------------------------------------------------------------------
// File numbers
// ---------------------------------------------------------------------------

/// The number in `path` = `prefix`, number, `.png`: the path with the
/// prefix and the suffix stripped, parsed as an `i16`.
pub open spec fn file_number(path: Seq<char>, prefix: Seq<char>) -> Option<i16> {
    if path.len() >= prefix.len() + 4 && path.take(prefix.len() as int) == prefix && path.skip(
        path.len() - 4,
    ) == ".png"@ {
        parse_i16_spec(path.subrange(prefix.len() as int, path.len() - 4))
    } else {
        None
    }
}

/// A path made of the folder prefix, a run of decimal digits and `.png`
/// has the digits' value as its number where that fits an `i16`, a `-`
/// before the digits negates it, and a larger value gives no number.
pub proof fn lemma_file_number_of_digits(prefix: Seq<char>, d: Seq<char>)
    requires
        d.len() > 0,
        all_digits(d),
    ensures
        decimal_value(d) <= 32767 ==> file_number(prefix + d + ".png"@, prefix) == Some(decimal_value(d) as i16),
        decimal_value(d) > 32767 ==> file_number(prefix + d + ".png"@, prefix) is None,
        decimal_value(d) <= 32768 ==> file_number(prefix + seq!['-'] + d + ".png"@, prefix) == Some(
            (0 - decimal_value(d)) as i16,
        ),
{
    reveal_strlit(".png");
    lemma_parse_digits(d);
    let p = prefix + d + ".png"@;
    assert(p.take(prefix.len() as int) =~= prefix);
    assert(p.skip(p.len() - 4) =~= ".png"@);
    assert(p.subrange(prefix.len() as int, p.len() - 4) =~= d);
    let m = seq!['-'] + d;
    let q = prefix + seq!['-'] + d + ".png"@;
    assert(q.take(prefix.len() as int) =~= prefix);
    assert(q.skip(q.len() - 4) =~= ".png"@);
    assert(q.subrange(prefix.len() as int, q.len() - 4) =~= m);
}

/// The characters `cs[from..to]`.
fn sub_chars(cs: &Vec<char>, from: usize, to: usize) -> (r: Vec<char>)
    requires
        from <= to <= cs.len(),
    ensures
        r@ == cs@.subrange(from as int, to as int),
{
    let mut r: Vec<char> = Vec::new();
    let mut i = from;
    while i < to
        invariant
            from <= i <= to <= cs.len(),
            r@ == cs@.subrange(from as int, i as int),
        decreases to - i,
    {
        r.push(cs[i]);
        assert(cs@.subrange(from as int, i + 1) =~= cs@.subrange(from as int, i as int).push(
            cs@[i as int],
        ));
        i = i + 1;
    }
    r
}

/// The number of a file path: `path.strip_prefix(prefix)`, then
/// `.strip_suffix(".png")`, then `.parse::<i16>()`.
pub fn path_number(path: &str, prefix: &str) -> (r: Option<i16>)
    ensures
        r == file_number(path@, prefix@),
{
    let cs = chars_of(path);
    let pc = chars_of(prefix);
    let suffix = chars_of(".png");
    if cs.len() < pc.len() || cs.len() - pc.len() < 4 {
        return None;
    }
    let head = sub_chars(&cs, 0, pc.len());
    let tail = sub_chars(&cs, cs.len() - 4, cs.len());
    assert(cs@.take(pc@.len() as int) =~= cs@.subrange(0, pc@.len() as int));
    assert(cs@.skip(cs@.len() - 4) =~= cs@.subrange(cs@.len() - 4, cs@.len() as int));
    if !chars_equal(&head, &pc) || !chars_equal(&tail, &suffix) {
        return None;
    }
    let middle = sub_chars(&cs, pc.len(), cs.len() - 4);
    parse_i16_chars(&middle)
}

// ---------------------------------------------------------------------------
// Catalogs
// ---------------------------------------------------------------------------

/// The sort keys of the files: their numbers (0 where a path has none).
pub open spec fn file_keys(files: Seq<EmbeddedFile>, prefix: Seq<char>) -> Seq<i16> {
    Seq::new(
        files.len(),
        |i: int|
            match file_number(files[i].path@, prefix) {
                Some(v) => v,
                None => 0,
            },
    )
}

/// The files are ordered by number: a sort compares every file once there
/// are two or more, and a path without a number stops it.
pub open spec fn numbers_needed(files: Seq<EmbeddedFile>) -> bool {
    files.len() >= 2
}

/// How many entries a catalog has: as many as there are files, name lines
/// and, where there are descriptions, description lines, whichever is least.
pub open spec fn catalog_len(files: int, names: int, descriptions: Option<int>) -> int {
    let m = if files < names { files } else { names };
    match descriptions {
        Some(d) => if m < d { m } else { d },
        None => m,
    }
}

/// The description text's lines, or none where there is no such text.
pub open spec fn description_lines(descriptions: Option<Seq<char>>) -> Option<Seq<Seq<char>>> {
    match descriptions {
        Some(d) => Some(lines_of(d)),
        None => None,
    }
}

/// The description of entry `k`: its line, or the empty text where the
/// catalog has no descriptions.
pub open spec fn description_at(lines: Option<Seq<Seq<char>>>, k: int) -> Seq<char> {
    match lines {
        Some(l) => l[k],
        None => Seq::<char>::empty(),
    }
}

/// Every file that the order needs has a number.
pub open spec fn all_numbered(files: Seq<EmbeddedFile>, prefix: Seq<char>) -> bool {
    !numbers_needed(files) || forall|i: int|
        0 <= i < files.len() ==> #[trigger] file_number(files[i].path@, prefix) is Some
}

/// `i` is the first file without a number, where the order needs numbers.
pub open spec fn first_bad_name(files: Seq<EmbeddedFile>, prefix: Seq<char>, i: int) -> bool {
    &&& numbers_needed(files)
    &&& 0 <= i < files.len()
    &&& file_number(files[i].path@, prefix) is None
    &&& forall|j: int| 0 <= j < i ==> #[trigger] file_number(files[j].path@, prefix) is Some
}

/// The order of the catalog: the positions of the files sorted stably by
/// number; `BadFileName` for the first file without a number where there are
/// two or more files.
pub fn catalog_order(files: &Vec<EmbeddedFile>, prefix: &str) -> (r: Result<Vec<usize>, CatalogError>)
    ensures
        match r {
            Err(CatalogError::BadFileName(i)) => first_bad_name(files@, prefix@, i as int),
            Err(CatalogError::UndecodableImage(_)) => false,
            Ok(p) => all_numbered(files@, prefix@) && is_key_order(file_keys(files@, prefix@), p@),
        },
{
    let n = files.len();
    let mut keys: Vec<i16> = Vec::new();
    let mut i: usize = 0;
    while i < n
        invariant
            n == files@.len(),
            i <= n,
            keys@.len() == i,
            forall|j: int| 0 <= j < i ==> keys@[j] == #[trigger] file_keys(files@, prefix@)[j],
            n >= 2 ==> forall|j: int| 0 <= j < i ==> #[trigger] file_number(files@[j].path@, prefix@) is Some,
        decreases n - i,
    {
        match path_number(files[i].path.as_str(), prefix) {
            Some(v) => keys.push(v),
            None => {
                if n >= 2 {
                    return Err(CatalogError::BadFileName(i));
                }
                keys.push(0);
            },
        }
        i = i + 1;
    }
    assert(keys@ =~= file_keys(files@, prefix@));
    Ok(key_order(&keys))
}

/// The number of entries for these decoded images and texts.
pub open spec fn entries_count(decoded: int, names: Seq<char>, descriptions: Option<Seq<char>>) -> int {
    catalog_len(
        decoded,
        lines_of(names).len() as int,
        match description_lines(descriptions) {
            Some(l) => Some(l.len() as int),
            None => None,
        },
    )
}

/// The view of an optional text.
pub open spec fn opt_text(t: Option<&str>) -> Option<Seq<char>> {
    match t {
        Some(d) => Some(d@),
        None => None,
    }
}

/// What pairing decoded images (in catalog order) with the lines of `names`
/// and of `descriptions` gives: as many entries as the shortest of these,
/// or `UndecodableImage` for the first of them whose image did not decode.
pub open spec fn icons_assembled(
    decoded: Seq<Option<RgbaPixels>>,
    names: Seq<char>,
    descriptions: Option<Seq<char>>,
    r: Result<Vec<Icon>, CatalogError>,
) -> bool {
    let count = entries_count(decoded.len() as int, names, descriptions);
    match r {
        Err(CatalogError::UndecodableImage(k)) => {
            &&& k < count
            &&& decoded[k as int] is None
            &&& forall|j: int| 0 <= j < k ==> #[trigger] decoded[j] is Some
        },
        Err(CatalogError::BadFileName(_)) => false,
        Ok(icons) => {
            &&& icons@.len() == count
            &&& forall|k: int|
                0 <= k < count ==> {
                    &&& decoded[k] == Some(#[trigger] icons@[k].image)
                    &&& icons@[k].name@ == lines_of(names)[k]
                    &&& icons@[k].description@ == description_at(description_lines(descriptions), k)
                }
        },
    }
}

/// Pairs the decoded images, in catalog order, with the name lines and the
/// description lines (empty descriptions where there is no description
/// text), stopping at the shortest; an image that did not decode among them
/// stops the catalog.
pub fn assemble_icons(
    decoded: Vec<Option<RgbaPixels>>,
    names: &str,
    descriptions: Option<&str>,
) -> (r: Result<Vec<Icon>, CatalogError>)
    ensures
        icons_assembled(decoded@, names@, opt_text(descriptions), r),
        r matches Ok(icons) ==> forall|k: int| 0 <= k < icons@.len() ==> #[trigger] icons@[k].file == k,
{
    let mut sources: Vec<usize> = Vec::new();
    let mut i: usize = 0;
    while i < decoded.len()
        invariant
            i <= decoded@.len(),
            sources@.len() == i,
            forall|k: int| 0 <= k < i ==> #[trigger] sources@[k] == k,
        decreases decoded.len() - i,
    {
        sources.push(i);
        i = i + 1;
    }
    assemble_from(decoded, &sources, names, descriptions)
}

/// `assemble_icons`, each entry marked with the file position given for its
/// image in `sources`.
fn assemble_from(
    decoded: Vec<Option<RgbaPixels>>,
    sources: &Vec<usize>,
    names: &str,
    descriptions: Option<&str>,
) -> (r: Result<Vec<Icon>, CatalogError>)
    requires
        sources@.len() == decoded@.len(),
    ensures
        icons_assembled(decoded@, names@, opt_text(descriptions), r),
        r matches Ok(icons) ==> forall|k: int| 0 <= k < icons@.len() ==> #[trigger] icons@[k].file == sources@[k],
{
    let ghost orig = decoded@;
    let ghost dl = description_lines(opt_text(descriptions));
    let ghost nl = lines_of(names@);
    let name_lines = split_lines(names);
    let descr_lines: Option<Vec<String>> = match descriptions {
        Some(d) => Some(split_lines(d)),
        None => None,
    };
    let n = decoded.len();
    let mut count = if n < name_lines.len() { n } else { name_lines.len() };
    match &descr_lines {
        Some(d) => {
            if d.len() < count {
                count = d.len();
            }
        },
        None => {},
    }
    assert(strings_view(name_lines@).len() == name_lines@.len());
    proof {
        if let Some(d) = &descr_lines {
            assert(strings_view(d@).len() == d@.len());
        }
    }
    assert(count == entries_count(n as int, names@, opt_text(descriptions)));
    let mut rest = decoded;
    let mut icons: Vec<Icon> = Vec::new();
    let mut k: usize = 0;
    while k < count
        invariant
            k <= count <= n,
            n == orig.len(),
            orig == decoded@,
            count == entries_count(orig.len() as int, names@, opt_text(descriptions)),
            count <= name_lines@.len(),
            rest@ == orig.skip(k as int),
            strings_view(name_lines@) == nl,
            nl == lines_of(names@),
            dl == description_lines(opt_text(descriptions)),
            match descr_lines {
                Some(d) => dl == Some(strings_view(d@)) && count <= d@.len(),
                None => dl is None,
            },
            icons@.len() == k,
            sources@.len() == n,
            forall|j: int| 0 <= j < k ==> #[trigger] icons@[j].file == sources@[j],
            forall|j: int| 0 <= j < k ==> #[trigger] orig[j] is Some,
            forall|j: int|
                0 <= j < k ==> {
                    &&& orig[j] == Some(#[trigger] icons@[j].image)
                    &&& icons@[j].name@ == nl[j]
                    &&& icons@[j].description@ == description_at(dl, j)
                },
        decreases count - k,
    {
        let d = rest.remove(0);
        assert(d == orig[k as int]);
        assert(rest@ =~= orig.skip(k + 1));
        match d {
            Some(image) => {
                let name = name_lines[k].clone();
                let description = match &descr_lines {
                    Some(dv) => dv[k].clone(),
                    None => String::new(),
                };
                assert(name@ == nl[k as int]);
                icons.push(Icon { image, name, description, file: sources[k] });
            },
            None => {
                return Err(CatalogError::UndecodableImage(k));
            },
        }
        k = k + 1;
    }
    assert forall|j: int| 0 <= j < count implies {
        &&& orig[j] == Some(#[trigger] icons@[j].image)
        &&& icons@[j].name@ == lines_of(names@)[j]
        &&& icons@[j].description@ == description_at(description_lines(opt_text(descriptions)), j)
    } by {
        assert(orig[j] == Some(icons@[j].image));
    }
    assert(icons@.len() == count);
    let r: Result<Vec<Icon>, CatalogError> = Ok(icons);
    assert(icons_assembled(orig, names@, opt_text(descriptions), r));
    r
}

/// What building a catalog gives, whatever the decoder made of the bytes:
/// `BadFileName` exactly for the first file without a number (where the
/// order needs numbers); otherwise the files in number order, paired with
/// the name and description lines as far as the shortest goes, each entry's
/// image holding four bytes per pixel, or `UndecodableImage` for an entry
/// among them whose bytes did not decode.
pub open spec fn catalog_result(
    files: Seq<EmbeddedFile>,
    prefix: Seq<char>,
    names: Seq<char>,
    descriptions: Option<Seq<char>>,
    r: Result<Vec<Icon>, CatalogError>,
) -> bool {
    let count = entries_count(files.len() as int, names, descriptions);
    match r {
        Err(CatalogError::BadFileName(i)) => first_bad_name(files, prefix, i as int),
        Err(CatalogError::UndecodableImage(k)) => all_numbered(files, prefix) && k < count,
        Ok(icons) => {
            &&& all_numbered(files, prefix)
            &&& icons@.len() == count
            &&& exists|p: Seq<usize>|
                #[trigger] is_key_order(file_keys(files, prefix), p) && forall|k: int|
                    0 <= k < count ==> #[trigger] icons@[k].file == p[k]
            &&& forall|k: int|
                0 <= k < count ==> {
                    &&& (#[trigger] icons@[k]).image.pixels@.len() >= 4 * icons@[k].image.width * icons@[k].image.height
                    &&& icons@[k].name@ == lines_of(names)[k]
                    &&& icons@[k].description@ == description_at(description_lines(descriptions), k)
                }
        },
    }
}

/// Some entry of `icons` comes from file `i`.
pub open spec fn has_entry_from(icons: Seq<Icon>, i: int) -> bool {
    exists|k: int| 0 <= k < icons.len() && #[trigger] icons[k].file == i
}

/// A built catalog lists its files by number: each entry comes from a file
/// of the input, a later entry's file has a larger number, or the same
/// number and a later position, and where the catalog is as long as the
/// file list every file is in it.
pub proof fn lemma_catalog_in_number_order(
    files: Seq<EmbeddedFile>,
    prefix: Seq<char>,
    names: Seq<char>,
    descriptions: Option<Seq<char>>,
    r: Result<Vec<Icon>, CatalogError>,
)
    requires
        files.len() <= usize::MAX,
        catalog_result(files, prefix, names, descriptions, r),
        r is Ok,
    ensures
        forall|k: int| 0 <= k < r->Ok_0@.len() ==> #[trigger] r->Ok_0@[k].file < files.len(),
        forall|a: int, b: int|
            0 <= a < b < r->Ok_0@.len() ==> {
                let ka = file_keys(files, prefix)[#[trigger] r->Ok_0@[a].file as int];
                let kb = file_keys(files, prefix)[#[trigger] r->Ok_0@[b].file as int];
                ka < kb || (ka == kb && r->Ok_0@[a].file < r->Ok_0@[b].file)
            },
        r->Ok_0@.len() == files.len() ==> forall|i: int|
            0 <= i < files.len() ==> #[trigger] has_entry_from(r->Ok_0@, i),
{
    let icons = r->Ok_0@;
    let keys = file_keys(files, prefix);
    let count = entries_count(files.len() as int, names, descriptions);
    let p = choose|p: Seq<usize>|
        #[trigger] is_key_order(keys, p) && forall|k: int| 0 <= k < count ==> #[trigger] icons[k].file == p[k];
    assert(icons.len() == count);
    assert(count <= files.len());
    assert forall|k: int| 0 <= k < icons.len() implies #[trigger] icons[k].file < files.len() by {
        assert(icons[k].file == p[k]);
    }
    assert forall|a: int, b: int| 0 <= a < b < icons.len() implies {
        let ka = keys[#[trigger] icons[a].file as int];
        let kb = keys[#[trigger] icons[b].file as int];
        ka < kb || (ka == kb && icons[a].file < icons[b].file)
    } by {
        assert(icons[a].file == p[a] && icons[b].file == p[b]);
        assert(comes_before(keys, p[a] as int, p[b] as int));
    }
    if icons.len() == files.len() {
        assert forall|i: int| 0 <= i < files.len() implies #[trigger] has_entry_from(icons, i) by {
            assert(p.contains(i as usize));
            let k = choose|k: int| 0 <= k < p.len() && p[k] == i as usize;
            assert(k < count);
            assert(icons[k].file == p[k]);
            assert(icons[k].file == i);
        }
    }
}

/// Builds a catalog from the numbered image files under `prefix`, the name
/// text and, where given, the description text: the files are ordered by
/// number, decoded, and paired with the lines.
pub fn numbered_icons(
    files: &Vec<EmbeddedFile>,
    prefix: &str,
    names: &str,
    descriptions: Option<&str>,
) -> (r: Result<Vec<Icon>, CatalogError>)
    ensures
        catalog_result(files@, prefix@, names@, opt_text(descriptions), r),
{
    let order = match catalog_order(files, prefix) {
        Ok(p) => p,
        Err(e) => {
            return Err(e);
        },
    };
    let mut decoded: Vec<Option<RgbaPixels>> = Vec::new();
    let mut sources: Vec<usize> = Vec::new();
    let mut k: usize = 0;
    while k < order.len()
        invariant
            k <= order@.len() == files@.len(),
            is_key_order(file_keys(files@, prefix@), order@),
            decoded@.len() == k,
            sources@.len() == k,
            forall|j: int| 0 <= j < k ==> #[trigger] sources@[j] == order@[j],
            forall|j: int|
                0 <= j < k ==> (#[trigger] decoded@[j] matches Some(px) ==> px.pixels@.len() >= 4 * px.width * px.height),
        decreases order.len() - k,
    {
        let f = order[k];
        assert(order@[k as int] < files@.len());
        // the file decoded for entry `k` is the one recorded as its source
        let image = decode_image(&files[f].contents);
        decoded.push(image);
        sources.push(f);
        k = k + 1;
    }
    assert(sources@ =~= order@);
    let ghost dv = decoded@;
    let r = assemble_from(decoded, &sources, names, descriptions);
    proof {
        if let Ok(icons) = &r {
            assert(is_key_order(file_keys(files@, prefix@), order@));
            assert forall|k: int| 0 <= k < icons@.len() implies (#[trigger] icons@[k]).image.pixels@.len()
                >= 4 * icons@[k].image.width * icons@[k].image.height by {
                assert(dv[k] == Some(icons@[k].image));
            }
        }
    }
    r
}

/// The achievement catalog: the images under `achievements/`, with the
/// lines of the name and description texts.
pub fn achievement_icons(files: &Vec<EmbeddedFile>, names: &str, descriptions: &str) -> (r: Result<Vec<Icon>, CatalogError>)
    ensures
        catalog_result(files@, "achievements/"@, names@, Some(descriptions@), r),
{
    numbered_icons(files, "achievements/", names, Some(descriptions))
}

/// The item catalog: the images under `items/`, with the lines of the name
/// text and empty descriptions.
pub fn item_icons(files: &Vec<EmbeddedFile>, names: &str) -> (r: Result<Vec<Icon>, CatalogError>)
    ensures
        catalog_result(files@, "items/"@, names@, None, r),
{
    numbered_icons(files, "items/", names, None)
}

} // verus!
