//! The container that groups derived posts by category key. Built once from
//! the externally enumerated `(key, post files)` pairs; later pairs with an
//! already-seen key replace the earlier entry. Each category holds its posts
//! sorted pinned-first, then by formatted date, stably.

use vstd::prelude::*;

verus! {

use crate::date;
use crate::post::{CategorySource, Post, PostInput, PostsError};
use crate::post::{clone_posts, derive_post, is_derived};
use crate::sorting::{sort_spec, sort_posts};
use crate::text;

#[derive(Debug)]
struct Entry {
    key: String,
    posts: Vec<Post>,
}

/// A read-only mapping from category key to its sorted posts.
#[derive(Debug)]
pub struct PostsContainer {
    posts_map: Vec<Entry>,
}

/// The association list `es` read as a map, later pairs winning.
pub open spec fn assoc_map<V>(es: Seq<(Seq<char>, V)>) -> Map<Seq<char>, V>
    decreases es.len(),
{
    if es.len() == 0 {
        Map::empty()
    } else {
        assoc_map(es.drop_last()).insert(es.last().0, es.last().1)
    }
}

/// No two pairs of `es` share a key.
pub open spec fn uniq_keys<V>(es: Seq<(Seq<char>, V)>) -> bool {
    forall|i: int, j: int| 0 <= i < j < es.len() ==> es[i].0 != es[j].0
}

/// All posts of the pairs of `es`, in pair order.
pub open spec fn flatten_posts(es: Seq<(Seq<char>, Seq<Post>)>) -> Seq<Post>
    decreases es.len(),
{
    if es.len() == 0 {
        Seq::empty()
    } else {
        flatten_posts(es.drop_last()) + es.last().1
    }
}

/// Every raw post of `ps` may be rendered: its timestamp, truncated to
/// seconds, is one the date formatting accepts.
pub open spec fn posts_ok(ps: Seq<PostInput>) -> bool {
    forall|j: int|
        0 <= j < ps.len() ==> (#[trigger] ps[j]).file.modified_time / 1000
            <= date::MAX_TIMESTAMP_SECS
}

/// Every raw post of `ps` carries a front-matter metadata block.
pub open spec fn posts_have_metadata(ps: Seq<PostInput>) -> bool {
    forall|j: int| 0 <= j < ps.len() ==> (#[trigger] ps[j]).metadata is Some
}

/// `posts_ok`, over every category of `ss`.
pub open spec fn sources_ok(ss: Seq<CategorySource>) -> bool {
    forall|i: int| 0 <= i < ss.len() ==> posts_ok((#[trigger] ss[i]).posts@)
}

/// `posts_have_metadata`, over every category of `ss`.
pub open spec fn all_have_metadata(ss: Seq<CategorySource>) -> bool {
    forall|i: int| 0 <= i < ss.len() ==> posts_have_metadata((#[trigger] ss[i]).posts@)
}

/// Some post of `ps` has no metadata block and is named `f`.
pub open spec fn missing_post(ps: Seq<PostInput>, f: Seq<char>) -> bool {
    exists|j: int|
        0 <= j < ps.len() && (#[trigger] ps[j]).metadata is None && ps[j].file.filename@ == f
}

/// Some post of some category of `ss` has no metadata block and is named
/// `f`.
pub open spec fn missing_in(ss: Seq<CategorySource>, f: Seq<char>) -> bool {
    exists|i: int| 0 <= i < ss.len() && missing_post((#[trigger] ss[i]).posts@, f)
}

/// `d` derives the raw posts `inputs` one for one, in order.
pub open spec fn derived_all(inputs: Seq<PostInput>, d: Seq<Post>) -> bool {
    &&& d.len() == inputs.len()
    &&& forall|i: int| 0 <= i < inputs.len() ==> is_derived(inputs[i], #[trigger] d[i])
}

/// `posts` is what a category built from the raw posts `inputs` holds: the
/// derived posts, sorted.
pub open spec fn cat_built_from(inputs: Seq<PostInput>, posts: Seq<Post>) -> bool {
    exists|d: Seq<Post>| #[trigger] derived_all(inputs, d) && posts == sort_spec(d)
}

/// The invariant of every built category: its posts respect the
/// pin-then-date order throughout, so every pinned post precedes every
/// unpinned one.
pub proof fn lemma_built_category_sorted(inputs: Seq<PostInput>, posts: Seq<Post>)
    requires
        cat_built_from(inputs, posts),
    ensures
        crate::sorting::sorted_by_rank(posts),
        forall|i: int, j: int|
            0 <= i < j < posts.len() && !posts[i].metadata.pined ==> !posts[j].metadata.pined,
{
    let d = choose|d: Seq<Post>| #[trigger] derived_all(inputs, d) && posts == sort_spec(d);
    crate::sorting::lemma_sort_spec_sorted(d);
    crate::sorting::lemma_sort_spec_pinned_first(d);
}

/// The key/posts pairs of the sources `ss`, in order.
pub open spec fn sources_pairs(ss: Seq<CategorySource>) -> Seq<(Seq<char>, Seq<PostInput>)> {
    Seq::new(ss.len(), |i: int| (ss[i].key@, ss[i].posts@))
}

/// The category map that the sources `ss` describe, later duplicates of a
/// key winning.
pub open spec fn sources_map(ss: Seq<CategorySource>) -> Map<Seq<char>, Seq<PostInput>> {
    assoc_map(sources_pairs(ss))
}

spec fn entry_pairs(es: Seq<Entry>) -> Seq<(Seq<char>, Seq<Post>)> {
    Seq::new(es.len(), |i: int| (es[i].key@, es[i].posts@))
}

proof fn lemma_assoc_push<V>(es: Seq<(Seq<char>, V)>, e: (Seq<char>, V))
    ensures
        assoc_map(es.push(e)) == assoc_map(es).insert(e.0, e.1),
{
    assert(es.push(e).drop_last() =~= es);
    assert(es.push(e).last() == e);
}

proof fn lemma_assoc_index<V>(es: Seq<(Seq<char>, V)>, i: int)
    requires
        uniq_keys(es),
        0 <= i < es.len(),
    ensures
        assoc_map(es).dom().contains(es[i].0),
        assoc_map(es)[es[i].0] == es[i].1,
    decreases es.len(),
{
    if i == es.len() - 1 {
    } else {
        assert(uniq_keys(es.drop_last()));
        lemma_assoc_index(es.drop_last(), i);
        assert(es[i].0 != es.last().0);
    }
}

proof fn lemma_assoc_absent<V>(es: Seq<(Seq<char>, V)>, k: Seq<char>)
    requires
        forall|i: int| 0 <= i < es.len() ==> (#[trigger] es[i]).0 != k,
    ensures
        !assoc_map(es).dom().contains(k),
    decreases es.len(),
{
    if es.len() > 0 {
        lemma_assoc_absent(es.drop_last(), k);
        assert(es.last() == es[es.len() - 1]);
    }
}

proof fn lemma_assoc_update<V>(es: Seq<(Seq<char>, V)>, j: int, v: V)
    requires
        uniq_keys(es),
        0 <= j < es.len(),
    ensures
        assoc_map(es.update(j, (es[j].0, v))) == assoc_map(es).insert(es[j].0, v),
    decreases es.len(),
{
    let up = es.update(j, (es[j].0, v));
    if j == es.len() - 1 {
        assert(up.drop_last() =~= es.drop_last());
        assert(assoc_map(up) == assoc_map(es.drop_last()).insert(es[j].0, v));
        assert(assoc_map(es.drop_last()).insert(es.last().0, es.last().1).insert(es[j].0, v)
            =~= assoc_map(es.drop_last()).insert(es[j].0, v));
    } else {
        assert(uniq_keys(es.drop_last()));
        lemma_assoc_update(es.drop_last(), j, v);
        assert(up.drop_last() =~= es.drop_last().update(j, (es[j].0, v)));
        assert(up.last() == es.last());
        assert(es[j].0 != es.last().0);
        assert(assoc_map(es.drop_last()).insert(es[j].0, v).insert(es.last().0, es.last().1)
            =~= assoc_map(es.drop_last()).insert(es.last().0, es.last().1).insert(es[j].0, v));
    }
}

fn find_key(entries: &Vec<Entry>, key: &String) -> (r: Option<usize>)
    ensures
        r matches Some(j) ==> j < entries@.len() && entries@[j as int].key@ == key@,
        r is None ==> forall|j: int| 0 <= j < entries@.len() ==> entries@[j].key@ != key@,
{
    let mut j: usize = 0;
    while j < entries.len()
        invariant
            j <= entries@.len(),
            forall|k: int| 0 <= k < j ==> entries@[k].key@ != key@,
        decreases entries@.len() - j,
    {
        if entries[j].key.eq(key) {
            return Some(j);
        }
        j += 1;
    }
    None
}

impl PostsContainer {
    /// The key/posts pairs the container holds, in storage order.
    pub closed spec fn cat_seq(self) -> Seq<(Seq<char>, Seq<Post>)> {
        entry_pairs(self.posts_map@)
    }

    /// The container holds each key once.
    pub open spec fn wf(self) -> bool {
        uniq_keys(self.cat_seq())
    }

    /// The container read as a map from category key to its posts.
    pub open spec fn cat_map(self) -> Map<Seq<char>, Seq<Post>> {
        assoc_map(self.cat_seq())
    }

    /// Strips markdown noise from a post's content: every newline, every
    /// fenced code block and every inline code span is removed.
    pub fn trim_useless_symbol(content: &str) -> (r: String)
        ensures
            r@ == text::stripped(content@),
    {
        text::strip_noise(content)
    }

    /// Derives and sorts the posts of one category, or reports the first
    /// post whose metadata block is missing.
    pub fn read_posts_into_memo(posts: &Vec<PostInput>) -> (r: Result<Vec<Post>, PostsError>)
        requires
            posts_ok(posts@),
        ensures
            r is Ok <==> posts_have_metadata(posts@),
            r matches Ok(v) ==> cat_built_from(posts@, v@),
            r matches Err(e) ==> e matches PostsError::MissingMetadata(f) && missing_post(
                posts@,
                f@,
            ),
    {
        let mut derived: Vec<Post> = Vec::new();
        let mut i: usize = 0;
        while i < posts.len()
            invariant
                i <= posts@.len(),
                posts_ok(posts@),
                derived_all(posts@.take(i as int), derived@),
            decreases posts@.len() - i,
        {
            match derive_post(&posts[i]) {
                Ok(p) => {
                    derived.push(p);
                    proof {
                        assert(posts@.take(i as int + 1).drop_last() =~= posts@.take(i as int));
                        assert(derived@.drop_last().push(p) =~= derived@);
                    }
                },
                Err(e) => {
                    proof {
                        assert(posts@[i as int].metadata is None);
                    }
                    return Err(e);
                },
            }
            i += 1;
        }
        proof {
            assert(posts@.take(posts@.len() as int) =~= posts@);
        }
        let sorted = sort_posts(&derived);
        proof {
            assert(derived_all(posts@, derived@));
            assert forall|j: int| 0 <= j < posts@.len() implies (#[trigger] posts@[j]).metadata
                is Some by {
                assert(is_derived(posts@[j], derived@[j]));
            }
        }
        Ok(sorted)
    }

    /// Builds the container from the enumerated sources. Every category is
    /// derived and sorted; a later source with an already-seen key replaces
    /// the earlier entry; the first post without a metadata block fails the
    /// whole build.
    pub fn new(sources: Vec<CategorySource>) -> (r: Result<PostsContainer, PostsError>)
        requires
            sources_ok(sources@),
        ensures
            r is Ok <==> all_have_metadata(sources@),
            r matches Ok(c) ==> c.wf(),
            r matches Ok(c) ==> c.cat_map().dom() == sources_map(sources@).dom(),
            r matches Ok(c) ==> forall|k: Seq<char>|
                #[trigger] c.cat_map().dom().contains(k) ==> cat_built_from(
                    sources_map(sources@)[k],
                    c.cat_map()[k],
                ),
            r matches Err(e) ==> e matches PostsError::MissingMetadata(f) && missing_in(
                sources@,
                f@,
            ),
    {
        let mut posts_map: Vec<Entry> = Vec::new();
        let mut i: usize = 0;
        proof {
            assert(entry_pairs(posts_map@) =~= Seq::<(Seq<char>, Seq<Post>)>::empty());
            assert(sources_pairs(sources@.take(0)) =~= Seq::<(Seq<char>, Seq<PostInput>)>::empty());
        }
        while i < sources.len()
            invariant
                i <= sources@.len(),
                sources_ok(sources@),
                uniq_keys(entry_pairs(posts_map@)),
                assoc_map(entry_pairs(posts_map@)).dom() == sources_map(sources@.take(i as int)).dom(),
                forall|k: Seq<char>|
                    #[trigger] assoc_map(entry_pairs(posts_map@)).dom().contains(k)
                        ==> cat_built_from(
                        sources_map(sources@.take(i as int))[k],
                        assoc_map(entry_pairs(posts_map@))[k],
                    ),
                forall|k: int| 0 <= k < i ==> posts_have_metadata((#[trigger] sources@[k]).posts@),
            decreases sources@.len() - i,
        {
            let ghost old_pairs = entry_pairs(posts_map@);
            let ghost old_smap = sources_map(sources@.take(i as int));
            let built = match Self::read_posts_into_memo(&sources[i].posts) {
                Ok(v) => v,
                Err(e) => {
                    proof {
                        assert(!posts_have_metadata(sources@[i as int].posts@));
                    }
                    return Err(e);
                },
            };
            let key = sources[i].key.clone();
            let ghost k = key@;
            proof {
                assert(sources_pairs(sources@.take(i as int + 1)) =~= sources_pairs(
                    sources@.take(i as int),
                ).push((k, sources@[i as int].posts@)));
                lemma_assoc_push(sources_pairs(sources@.take(i as int)), (
                    k,
                    sources@[i as int].posts@,
                ));
            }
            match find_key(&posts_map, &key) {
                Some(j) => {
                    posts_map.remove(j);
                    posts_map.insert(j, Entry { key, posts: built });
                    proof {
                        assert(entry_pairs(posts_map@) =~= old_pairs.update(j as int, (
                            k,
                            built@,
                        )));
                        lemma_assoc_update(old_pairs, j as int, built@);
                        assert(assoc_map(entry_pairs(posts_map@)).dom() =~= sources_map(
                            sources@.take(i as int + 1),
                        ).dom());
                    }
                },
                None => {
                    posts_map.push(Entry { key, posts: built });
                    proof {
                        assert(entry_pairs(posts_map@) =~= old_pairs.push((k, built@)));
                        lemma_assoc_push(old_pairs, (k, built@));
                        assert(uniq_keys(entry_pairs(posts_map@)));
                        assert(assoc_map(entry_pairs(posts_map@)).dom() =~= sources_map(
                            sources@.take(i as int + 1),
                        ).dom());
                    }
                },
            }
            i += 1;
        }
        proof {
            assert(sources@.take(sources@.len() as int) =~= sources@);
        }
        Ok(PostsContainer { posts_map })
    }

    /// The posts of an exact category key, as an independent copy. The key
    /// must be present; `try_get_posts_by_key` reports an absent key
    /// instead.
    pub fn get_posts_by_key(&self, key: String) -> (r: Vec<Post>)
        requires
            self.wf(),
            self.cat_map().dom().contains(key@),
        ensures
            r@ == self.cat_map()[key@],
    {
        match self.try_get_posts_by_key(key) {
            Ok(v) => v,
            Err(_) => vstd::pervasive::unreached(),
        }
    }

    /// The posts of an exact category key, or `UnknownKey` when the
    /// container holds no such category.
    pub fn try_get_posts_by_key(&self, key: String) -> (r: Result<Vec<Post>, PostsError>)
        requires
            self.wf(),
        ensures
            r is Ok <==> self.cat_map().dom().contains(key@),
            r matches Ok(v) ==> v@ == self.cat_map()[key@],
            r matches Err(e) ==> e matches PostsError::UnknownKey(f) && f@ == key@,
    {
        match find_key(&self.posts_map, &key) {
            Some(j) => {
                proof {
                    lemma_assoc_index(self.cat_seq(), j as int);
                }
                Ok(clone_posts(&self.posts_map[j].posts))
            },
            None => {
                proof {
                    lemma_assoc_absent(self.cat_seq(), key@);
                }
                Err(PostsError::UnknownKey(key))
            },
        }
    }

    /// All posts of all categories, concatenated in the container's
    /// category order, as an independent copy.
    pub fn get_posts(&self) -> (r: Vec<Post>)
        ensures
            r@ == flatten_posts(self.cat_seq()),
    {
        let mut target_posts: Vec<Post> = Vec::new();
        let mut i: usize = 0;
        proof {
            assert(flatten_posts(self.cat_seq().take(0)) =~= Seq::<Post>::empty());
        }
        while i < self.posts_map.len()
            invariant
                i <= self.posts_map@.len(),
                self.cat_seq() == entry_pairs(self.posts_map@),
                target_posts@ == flatten_posts(self.cat_seq().take(i as int)),
            decreases self.posts_map@.len() - i,
        {
            let mut cloned = clone_posts(&self.posts_map[i].posts);
            target_posts.append(&mut cloned);
            proof {
                assert(self.cat_seq().take(i as int + 1).drop_last() =~= self.cat_seq().take(
                    i as int,
                ));
                assert(self.cat_seq().take(i as int + 1).last() == self.cat_seq()[i as int]);
            }
            i += 1;
        }
        proof {
            assert(self.cat_seq().take(self.cat_seq().len() as int) =~= self.cat_seq());
        }
        target_posts
    }
}

} // verus!
