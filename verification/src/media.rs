use vstd::prelude::*;

use crate::model::opt_view;
use crate::text::{
    chars_of, last_at, lemma_rsplit_once_at, rfind_char, rsplit_once, string_of, trim,
    trim_bounds,
};

verus! {

/// An image as it will be stored: its bytes, content type and file name.
pub struct ProcessedImage {
    pub data: Vec<u8>,
    pub mime_type: String,
    pub filename: Option<String>,
}

/// The file name of a photo stored as JPEG: the trimmed name with its last
/// extension replaced by `.jpg`, or `.jpg` appended when it has none (or
/// nothing before its last dot).
pub open spec fn spec_jpeg_filename(filename: Seq<char>) -> Seq<char> {
    let t = trim(filename);
    match rsplit_once(t, '.') {
        Some((base, _)) => if base.len() > 0 {
            base + ".jpg"@
        } else {
            t + ".jpg"@
        },
        None => t + ".jpg"@,
    }
}

/// Gives a file name the `.jpg` extension.
pub fn rewrite_filename_to_jpeg(filename: String) -> (name: String)
    ensures
        name@ == spec_jpeg_filename(filename@),
{
    let v = chars_of(filename.as_str());
    let (lo, hi) = trim_bounds(&v);
    let ghost t = v@.subrange(lo as int, hi as int);
    let mut name = match rfind_char(&v, lo, hi, '.') {
        Some(k) => {
            proof {
                assert forall|j: int| k - lo < j < t.len() implies t[j] != '.' by {
                    assert(t[j] == v@[lo + j]);
                }
                assert(t[k - lo] == v@[k as int]);
                assert(last_at(t, '.', k - lo));
                lemma_rsplit_once_at(t, '.', k - lo);
                assert(t.take(k - lo) =~= v@.subrange(lo as int, k as int));
            }
            if k > lo {
                string_of(&v, lo, k)
            } else {
                string_of(&v, lo, hi)
            }
        },
        None => {
            proof {
                assert forall|j: int| #![auto] 0 <= j < t.len() implies t[j] != '.' by {
                    assert(t[j] == v@[lo + j]);
                }
                assert(!exists|k: int| last_at(t, '.', k));
            }
            string_of(&v, lo, hi)
        },
    };
    name.append(".jpg");
    name
}

/// A JPEG file name ends in `.jpg`.
pub proof fn lemma_jpeg_filename_suffix(filename: Seq<char>)
    ensures
        spec_jpeg_filename(filename).len() >= 4,
        spec_jpeg_filename(filename).skip(spec_jpeg_filename(filename).len() - 4) == ".jpg"@,
{
    reveal_strlit(".jpg");
    let r = spec_jpeg_filename(filename);
    let t = trim(filename);
    match rsplit_once(t, '.') {
        Some((base, _)) => {
            if base.len() > 0 {
                assert(r.skip(r.len() - 4) =~= ".jpg"@);
            } else {
                assert(r.skip(r.len() - 4) =~= ".jpg"@);
            }
        },
        None => {
            assert(r.skip(r.len() - 4) =~= ".jpg"@);
        },
    }
}

/// A JPEG file name keeps the trimmed name's text unchanged: it is the
/// trimmed name cut just before its last '.' (when that dot has text before
/// it), or the whole trimmed name (when it has no dot after its first
/// character), followed by `.jpg`.
pub proof fn lemma_jpeg_filename_keeps_stem(filename: Seq<char>)
    ensures
        ({
            let t = trim(filename);
            let r = spec_jpeg_filename(filename);
            let n = r.len() - 4;
            &&& r.len() >= 4
            &&& r.skip(n) == ".jpg"@
            &&& n <= t.len()
            &&& r.take(n) == t.take(n)
            &&& (n == t.len() && forall|j: int| 0 < j < t.len() ==> t[j] != '.') || (0 < n
                < t.len() && t[n] == '.' && forall|j: int| n < j < t.len() ==> t[j] != '.')
        }),
{
    reveal_strlit(".jpg");
    let t = trim(filename);
    let r = spec_jpeg_filename(filename);
    if exists|k: int| last_at(t, '.', k) {
        let k = choose|k: int| last_at(t, '.', k);
        lemma_rsplit_once_at(t, '.', k);
        if k > 0 {
            assert(r =~= t.take(k) + ".jpg"@);
            assert(r.take(k) =~= t.take(k));
            assert(r.skip(k) =~= ".jpg"@);
        } else {
            assert(r =~= t + ".jpg"@);
            assert(r.take(t.len() as int) =~= t.take(t.len() as int));
            assert(r.skip(t.len() as int) =~= ".jpg"@);
        }
    } else {
        assert(r =~= t + ".jpg"@);
        assert(r.take(t.len() as int) =~= t.take(t.len() as int));
        assert(r.skip(t.len() as int) =~= ".jpg"@);
        assert forall|j: int| 0 < j < t.len() implies t[j] != '.' by {
            if t[j] == '.' {
                let k = crate::text::scan_last_dot(t, j);
                assert(last_at(t, '.', k));
            }
        }
    }
}

/// Decides what to store for an uploaded image given its JPEG re-encoding:
/// the re-encoding, typed `image/jpeg` and renamed to `.jpg`, when it is
/// smaller than the upload; the upload as it came otherwise.
pub fn choose_stored_image(
    filename: Option<String>,
    mime_type: String,
    data: Vec<u8>,
    encoded: Vec<u8>,
) -> (image: ProcessedImage)
    ensures
        encoded@.len() < data@.len() ==> {
            &&& image.data@ == encoded@
            &&& image.mime_type@ == "image/jpeg"@
            &&& opt_view(image.filename) == match filename {
                Some(f) => Some(spec_jpeg_filename(f@)),
                None => None::<Seq<char>>,
            }
        },
        encoded@.len() >= data@.len() ==> {
            &&& image.data@ == data@
            &&& image.mime_type@ == mime_type@
            &&& opt_view(image.filename) == opt_view(filename)
        },
        image.data@.len() <= data@.len(),
{
    if encoded.len() < data.len() {
        let filename = match filename {
            Some(f) => Some(rewrite_filename_to_jpeg(f)),
            None => None,
        };
        ProcessedImage { data: encoded, mime_type: "image/jpeg".to_owned(), filename }
    } else {
        ProcessedImage { data, mime_type, filename }
    }
}

} // verus!
