//! The post records: raw input files, parsed front-matter metadata, and the
//! derived `Post` with its stripped and truncated description and formatted
//! modification date.

use vstd::prelude::*;

verus! {

use vstd::utf8::encode_utf8;
use crate::text;
use crate::date;

/// Front-matter metadata of a post. Only the pinned flag matters to this
/// index; further fields are opaque to it.
#[derive(Clone, Copy, Debug, PartialEq, Eq, Structural)]
pub struct PostMetadata {
    pub pined: bool,
}

/// A raw post file as the external enumerator supplies it: its name, its
/// full markdown text, and its modification time in milliseconds since the
/// Unix epoch.
#[derive(Debug)]
pub struct PostFile {
    pub filename: String,
    pub content: String,
    pub modified_time: u64,
}

/// A raw post file together with the front-matter metadata that the external
/// markdown service extracted from it; `None` when the file carries no
/// metadata block.
#[derive(Debug)]
pub struct PostInput {
    pub file: PostFile,
    pub metadata: Option<PostMetadata>,
}

/// A derived, immutable post record.
#[derive(Clone, Debug, PartialEq)]
pub struct Post {
    pub metadata: PostMetadata,
    pub raw_content: String,
    pub desc: String,
    pub modified_time: String,
    pub filename: String,
}

/// A category key together with the raw posts filed under it.
#[derive(Debug)]
pub struct CategorySource {
    pub key: String,
    pub posts: Vec<PostInput>,
}

/// A tag filter over posts.
#[derive(Clone, Debug)]
pub enum FilterTag {
    All,
    Tag(String),
}

/// The ways building or querying the index can fail.
#[derive(Clone, Debug, PartialEq)]
pub enum PostsError {
    /// A post file carries no front-matter metadata block; holds its
    /// filename.
    MissingMetadata(String),
    /// A lookup asked for a category key that the index does not hold.
    UnknownKey(String),
}

/// The bytes of a post description derived from raw markdown `content`:
/// the noise-stripped text, cut at the description byte budget on a
/// character boundary.
pub open spec fn desc_bytes_of(content: Seq<char>) -> Seq<u8> {
    let sb = encode_utf8(text::stripped(content));
    sb.subrange(0, text::desc_cut(sb))
}

/// `p` is the post derived from the raw input `inp`: its metadata was
/// extracted, its raw content and filename are kept unchanged, its
/// description is the stripped and truncated content, and its modification
/// date is the rendered timestamp (milliseconds truncated to seconds).
pub open spec fn is_derived(inp: PostInput, p: Post) -> bool {
    &&& inp.metadata is Some
    &&& p.metadata == inp.metadata->0
    &&& p.raw_content@ == inp.file.content@
    &&& p.filename@ == inp.file.filename@
    &&& encode_utf8(p.desc@) == desc_bytes_of(inp.file.content@)
    &&& p.modified_time@ == date::date_string_of((inp.file.modified_time / 1000) as int)
}

/// Derives a `Post` from a raw input, or reports the missing metadata block.
pub fn derive_post(inp: &PostInput) -> (r: Result<Post, PostsError>)
    requires
        inp.file.modified_time / 1000 <= date::MAX_TIMESTAMP_SECS,
    ensures
        r is Ok <==> inp.metadata is Some,
        r matches Ok(p) ==> is_derived(*inp, p),
        r matches Err(e) ==> e matches PostsError::MissingMetadata(f) && f@
            == inp.file.filename@,
{
    match inp.metadata {
        None => Err(PostsError::MissingMetadata(inp.file.filename.clone())),
        Some(metadata) => {
            let stripped_text = text::strip_noise(inp.file.content.as_str());
            let desc = text::truncate(stripped_text.as_str());
            let modified_time = date::format_timestamp(inp.file.modified_time / 1000);
            Ok(
                Post {
                    metadata,
                    raw_content: inp.file.content.clone(),
                    desc,
                    modified_time,
                    filename: inp.file.filename.clone(),
                },
            )
        },
    }
}

/// Copies a post; the copy equals the original.
pub fn clone_post(p: &Post) -> (r: Post)
    ensures
        r == *p,
{
    Post {
        metadata: p.metadata,
        raw_content: p.raw_content.clone(),
        desc: p.desc.clone(),
        modified_time: p.modified_time.clone(),
        filename: p.filename.clone(),
    }
}

/// Copies a vector of posts; the copy's contents equal the original's.
pub fn clone_posts(v: &Vec<Post>) -> (r: Vec<Post>)
    ensures
        r@ == v@,
{
    let mut out: Vec<Post> = Vec::new();
    let mut i: usize = 0;
    while i < v.len()
        invariant
            i <= v@.len(),
            out@ == v@.take(i as int),
        decreases v@.len() - i,
    {
        out.push(clone_post(&v[i]));
        proof {
            assert(v@.take(i as int).push(v@[i as int]) =~= v@.take(i as int + 1));
        }
        i += 1;
    }
    proof {
        assert(v@.take(v@.len() as int) =~= v@);
    }
    out
}

} // verus!
