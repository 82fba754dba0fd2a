use vstd::prelude::*;

use crate::model::{opt_view, string_views, PhotoRecord};
use crate::text::{push_char, 
    chars_of, join, lacks, lemma_split_join, lemma_split_pieces_lack, trim_end, trim_start,
    lemma_trimmed_nonempty_fixed, lemma_trimmed_nonempty_props, push_chars, split, split_chars,
    string_of, trim, trim_bounds, trimmed_nonempty, views,
};

verus! {

/// The photo database: where its SQLite file lies. Reading and writing the
/// file is the application's part; this crate holds what is computed on
/// either side of it.
pub struct Database {
    pub path: String,
}

/// The tags held in a stored tag column: its comma-separated pieces, trimmed,
/// the empty ones left out.
pub open spec fn spec_split_tags(raw: Seq<char>) -> Seq<Seq<char>> {
    trimmed_nonempty(split(raw, ','))
}

/// The tag column stored for a list of tags: the tags trimmed, the empty ones
/// left out, joined with commas.
pub open spec fn spec_join_tags(tags: Seq<Seq<char>>) -> Seq<char> {
    join(trimmed_nonempty(tags), ',')
}

/// Splits a stored tag column into its tags.
pub fn split_tags(raw: String) -> (tags: Vec<String>)
    ensures
        string_views(tags@) == spec_split_tags(raw@),
{
    let v = chars_of(raw.as_str());
    let pieces = split_chars(&v, ',');
    let ghost ps = views(pieces@);
    let mut out: Vec<String> = Vec::new();
    let mut k: usize = 0;
    assert(ps.take(0) =~= Seq::<Seq<char>>::empty());
    assert(string_views(out@) =~= Seq::<Seq<char>>::empty());
    while k < pieces.len()
        invariant
            k <= pieces.len(),
            ps == views(pieces@),
            ps == split(v@, ','),
            string_views(out@) == trimmed_nonempty(ps.take(k as int)),
        decreases pieces.len() - k,
    {
        let piece = &pieces[k];
        let (lo, hi) = trim_bounds(piece);
        assert(ps[k as int] == piece@);
        assert(ps.take(k + 1).drop_last() =~= ps.take(k as int));
        assert(ps.take(k + 1).last() == piece@);
        if lo < hi {
            let t = string_of(piece, lo, hi);
            let ghost before = out@;
            out.push(t);
            assert(string_views(out@) =~= string_views(before).push(t@));
        }
        k = k + 1;
    }
    assert(ps.take(pieces.len() as int) =~= ps);
    out
}

/// Joins tags into the form the tag column stores.
pub fn join_tags(tags: &[String]) -> (raw: String)
    ensures
        raw@ == spec_join_tags(string_views(tags@)),
{
    let ghost ts = string_views(tags@);
    let mut out = String::new();
    let mut count: usize = 0;
    let mut i: usize = 0;
    assert(ts.take(0) =~= Seq::<Seq<char>>::empty());
    while i < tags.len()
        invariant
            i <= tags.len(),
            ts == string_views(tags@),
            out@ == join(trimmed_nonempty(ts.take(i as int)), ','),
            count == trimmed_nonempty(ts.take(i as int)).len(),
            count <= i,
        decreases tags.len() - i,
    {
        let v = chars_of(tags[i].as_str());
        let (lo, hi) = trim_bounds(&v);
        assert(ts[i as int] == v@);
        assert(ts.take(i + 1).drop_last() =~= ts.take(i as int));
        assert(ts.take(i + 1).last() == v@);
        let ghost prev = trimmed_nonempty(ts.take(i as int));
        if lo < hi {
            let ghost before = out@;
            if count > 0 {
                push_char(&mut out, ',');
            }
            push_chars(&mut out, &v, lo, hi);
            let ghost t = v@.subrange(lo as int, hi as int);
            assert(prev.push(t).drop_last() =~= prev);
            if count == 0 {
                assert(out@ =~= t);
            } else {
                assert(out@ =~= join(prev, ',').push(',') + t);
            }
            count = count + 1;
        }
        i = i + 1;
    }
    assert(ts.take(tags.len() as int) =~= ts);
    out
}

/// Builds a photo from the columns of a stored row: every column as it is,
/// the tag column split into tags.
pub fn photo_record_from_row(
    id: i64,
    title: String,
    description: String,
    raw_tags: String,
    filename: Option<String>,
    mime_type: String,
    data: Vec<u8>,
    created_at: String,
) -> (photo: PhotoRecord)
    ensures
        photo.id == id,
        photo.title@ == title@,
        photo.description@ == description@,
        string_views(photo.tags@) == spec_split_tags(raw_tags@),
        opt_view(photo.filename) == opt_view(filename),
        photo.mime_type@ == mime_type@,
        photo.data@ == data@,
        photo.created_at@ == created_at@,
{
    PhotoRecord {
        id,
        title,
        description,
        tags: split_tags(raw_tags),
        filename,
        mime_type,
        data,
        created_at,
    }
}

/// Whether a table's column list names the tag column.
pub fn tags_column_present(columns: &Vec<String>) -> (present: bool)
    ensures
        present == exists|i: int| 0 <= i < columns@.len() && #[trigger] columns@[i]@ == "tags"@,
{
    let tags = "tags".to_owned();
    let mut i: usize = 0;
    while i < columns.len()
        invariant
            i <= columns.len(),
            tags@ == "tags"@,
            forall|j: int| 0 <= j < i ==> #[trigger] columns@[j]@ != "tags"@,
        decreases columns.len() - i,
    {
        if columns[i] == tags {
            return true;
        }
        i = i + 1;
    }
    false
}

/// Storing tags and reading them back gives the tags trimmed, the empty ones
/// left out, when no tag holds a comma.
pub proof fn lemma_tags_round_trip(tags: Seq<Seq<char>>)
    requires
        forall|i: int| 0 <= i < tags.len() ==> lacks(#[trigger] tags[i], ','),
    ensures
        spec_split_tags(spec_join_tags(tags)) == trimmed_nonempty(tags),
{
    let c = trimmed_nonempty(tags);
    lemma_trimmed_nonempty_props(tags, ',');
    if c.len() == 0 {
        let e = Seq::<char>::empty();
        assert(trim_start(e) == e);
        assert(trim_end(e) == e);
        assert(seq![e].last() == e);
        let s1 = seq![e];
        assert(s1.drop_last() =~= Seq::<Seq<char>>::empty());
        assert(trimmed_nonempty(s1.drop_last()) =~= Seq::<Seq<char>>::empty());
        assert(trim(s1.last()).len() == 0);
        assert(trimmed_nonempty(seq![e]) =~= Seq::<Seq<char>>::empty());
    } else {
        lemma_split_join(c, ',');
        lemma_trimmed_nonempty_fixed(c);
    }
}

/// Reading a stored tag column, storing the tags again and reading them back
/// gives the same tags.
pub proof fn lemma_tags_stable(raw: Seq<char>)
    ensures
        spec_split_tags(spec_join_tags(spec_split_tags(raw))) == spec_split_tags(raw),
{
    let ps = split(raw, ',');
    lemma_split_pieces_lack(raw, ',');
    lemma_trimmed_nonempty_props(ps, ',');
    let tags = spec_split_tags(raw);
    lemma_tags_round_trip(tags);
    lemma_trimmed_nonempty_fixed(tags);
}

} // verus!
