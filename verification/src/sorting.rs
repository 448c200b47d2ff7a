//! The pin-then-date order on posts and a stable sort for it. A pinned post
//! sorts before an unpinned one; posts with the same pin status are ordered
//! by their formatted modification date, compared as strings; posts of equal
//! rank keep their original relative order.

use vstd::prelude::*;

verus! {

use vstd::string::StrSliceExecFns;
use crate::post::Post;

/// Lexicographic order on character sequences, by code point.
pub open spec fn lex_le(a: Seq<char>, b: Seq<char>) -> bool
    decreases a.len(),
{
    if a.len() == 0 {
        true
    } else if b.len() == 0 {
        false
    } else if (a[0] as u32) < (b[0] as u32) {
        true
    } else if (a[0] as u32) > (b[0] as u32) {
        false
    } else {
        lex_le(a.drop_first(), b.drop_first())
    }
}

/// `a` may sort at or before `b`: a pinned post precedes an unpinned one;
/// with equal pin status the formatted dates decide, as strings.
pub open spec fn rank_le(a: Post, b: Post) -> bool {
    if a.metadata.pined != b.metadata.pined {
        a.metadata.pined
    } else {
        lex_le(a.modified_time@, b.modified_time@)
    }
}

/// `a` and `b` are tied in the sort order: same pin status, same formatted
/// date.
pub open spec fn same_rank(a: Post, b: Post) -> bool {
    a.metadata.pined == b.metadata.pined && a.modified_time@ == b.modified_time@
}

/// Every pair of the sequence, in order, respects `rank_le`.
pub open spec fn sorted_by_rank(s: Seq<Post>) -> bool {
    forall|i: int, j: int| 0 <= i < j < s.len() ==> rank_le(s[i], s[j])
}

/// Where a stable insertion places `x` in the sorted sequence `s`: after
/// every element at or below its rank, before every element strictly above
/// it.
pub open spec fn insert_sorted(s: Seq<Post>, x: Post) -> Seq<Post>
    decreases s.len(),
{
    if s.len() == 0 {
        seq![x]
    } else if rank_le(s.last(), x) {
        s.push(x)
    } else {
        insert_sorted(s.drop_last(), x).push(s.last())
    }
}

/// The stable sort of `s` under `rank_le`.
pub open spec fn sort_spec(s: Seq<Post>) -> Seq<Post>
    decreases s.len(),
{
    if s.len() == 0 {
        Seq::empty()
    } else {
        insert_sorted(sort_spec(s.drop_last()), s.last())
    }
}

proof fn lemma_lex_le_total(a: Seq<char>, b: Seq<char>)
    ensures
        lex_le(a, b) || lex_le(b, a),
    decreases a.len(),
{
    if a.len() == 0 || b.len() == 0 {
    } else if (a[0] as u32) == (b[0] as u32) {
        lemma_lex_le_total(a.drop_first(), b.drop_first());
    }
}

proof fn lemma_lex_le_trans(a: Seq<char>, b: Seq<char>, c: Seq<char>)
    requires
        lex_le(a, b),
        lex_le(b, c),
    ensures
        lex_le(a, c),
    decreases a.len(),
{
    if a.len() == 0 || b.len() == 0 || c.len() == 0 {
    } else if (a[0] as u32) == (b[0] as u32) && (b[0] as u32) == (c[0] as u32) {
        lemma_lex_le_trans(a.drop_first(), b.drop_first(), c.drop_first());
    }
}

proof fn lemma_lex_le_refl(a: Seq<char>)
    ensures
        lex_le(a, a),
    decreases a.len(),
{
    if a.len() > 0 {
        lemma_lex_le_refl(a.drop_first());
    }
}

proof fn lemma_rank_le_total(a: Post, b: Post)
    ensures
        rank_le(a, b) || rank_le(b, a),
{
    lemma_lex_le_total(a.modified_time@, b.modified_time@);
}

proof fn lemma_rank_le_trans(a: Post, b: Post, c: Post)
    requires
        rank_le(a, b),
        rank_le(b, c),
    ensures
        rank_le(a, c),
{
    if a.metadata.pined == b.metadata.pined && b.metadata.pined == c.metadata.pined {
        lemma_lex_le_trans(a.modified_time@, b.modified_time@, c.modified_time@);
    }
}

/// The posts of `s` whose rank ties `p`, in their original order.
pub open spec fn rank_class(s: Seq<Post>, p: Post) -> Seq<Post> {
    s.filter(|q: Post| same_rank(q, p))
}

proof fn lemma_rank_class_empty(p: Post)
    ensures
        rank_class(Seq::empty(), p) == Seq::<Post>::empty(),
{
    reveal(Seq::filter);
}

proof fn lemma_rank_class_push(s: Seq<Post>, e: Post, p: Post)
    ensures
        same_rank(e, p) ==> rank_class(s.push(e), p) == rank_class(s, p).push(e),
        !same_rank(e, p) ==> rank_class(s.push(e), p) == rank_class(s, p),
{
    reveal(Seq::filter);
    assert(s.push(e).drop_last() =~= s);
    assert(s.push(e).last() == e);
}

proof fn lemma_same_rank_le(a: Post, b: Post)
    requires
        same_rank(a, b),
    ensures
        rank_le(a, b),
        rank_le(b, a),
{
    lemma_lex_le_refl(a.modified_time@);
}

proof fn lemma_insert_sorted_props(s: Seq<Post>, x: Post)
    requires
        sorted_by_rank(s),
    ensures
        insert_sorted(s, x).len() == s.len() + 1,
        sorted_by_rank(insert_sorted(s, x)),
        insert_sorted(s, x).to_multiset() == s.to_multiset().insert(x),
        forall|i: int|
            0 <= i < insert_sorted(s, x).len() ==> insert_sorted(s, x)[i] == x || s.contains(
                insert_sorted(s, x)[i],
            ),
        forall|p: Post| #[trigger] rank_class(insert_sorted(s, x), p) == rank_class(s.push(x), p),
    decreases s.len(),
{
    broadcast use vstd::seq_lib::group_to_multiset_ensures;

    if s.len() == 0 {
        assert(seq![x] =~= s.push(x));
        assert(s.push(x).to_multiset() =~= s.to_multiset().insert(x));
        assert forall|i: int| 0 <= i < insert_sorted(s, x).len() implies insert_sorted(s, x)[i]
            == x || s.contains(insert_sorted(s, x)[i]) by {
            assert(insert_sorted(s, x)[i] == x);
        }
    } else if rank_le(s.last(), x) {
        assert(s.push(x).to_multiset() =~= s.to_multiset().insert(x));
        assert forall|i: int, j: int| 0 <= i < j < s.push(x).len() implies rank_le(
            s.push(x)[i],
            s.push(x)[j],
        ) by {
            if j == s.len() {
                if i < s.len() - 1 {
                    lemma_rank_le_trans(s[i], s.last(), x);
                }
            }
        }
    } else {
        let dl = s.drop_last();
        let last = s.last();
        assert(sorted_by_rank(dl));
        lemma_insert_sorted_props(dl, x);
        let t = insert_sorted(dl, x);
        assert(insert_sorted(s, x) == t.push(last));
        assert(s =~= dl.push(last));
        lemma_rank_le_total(last, x);

        // every element of `t` ranks at or below `last`
        assert forall|i: int| 0 <= i < t.len() implies rank_le(t[i], last) by {
            if t[i] == x {
                assert(rank_le(x, last));
            } else {
                let k = choose|k: int| 0 <= k < dl.len() && dl[k] == t[i];
                assert(rank_le(s[k], s.last()));
            }
        }
        assert forall|i: int, j: int| 0 <= i < j < t.push(last).len() implies rank_le(
            t.push(last)[i],
            t.push(last)[j],
        ) by {
            if j < t.len() {
                assert(rank_le(t[i], t[j]));
            } else {
                assert(rank_le(t[i], last));
            }
        }

        // multiset: inserting x then last equals inserting last then x
        assert(t.push(last).to_multiset() =~= t.to_multiset().insert(last));
        assert(dl.to_multiset().insert(x).insert(last) =~= dl.to_multiset().insert(last).insert(
            x,
        ));
        assert(dl.push(last).to_multiset() =~= dl.to_multiset().insert(last));
        assert(s.to_multiset() == dl.push(last).to_multiset());

        // membership
        assert forall|i: int| 0 <= i < t.push(last).len() implies t.push(last)[i] == x
            || s.contains(t.push(last)[i]) by {
            if i < t.len() {
                if t[i] == x {
                } else {
                    let k = choose|k: int| 0 <= k < dl.len() && dl[k] == t[i];
                    assert(s[k] == t[i]);
                }
            } else {
                assert(s[s.len() - 1] == last);
            }
        }

        // stability: the subsequence of every rank class is kept
        assert forall|p: Post| #[trigger] rank_class(t.push(last), p) == rank_class(
            s.push(x),
            p,
        ) by {
            assert(rank_class(t, p) == rank_class(dl.push(x), p));
            lemma_rank_class_push(t, last, p);
            lemma_rank_class_push(dl, x, p);
            lemma_rank_class_push(s, x, p);
            lemma_rank_class_push(dl, last, p);
            assert(rank_class(s, p) == rank_class(dl.push(last), p));
            if same_rank(x, p) && same_rank(last, p) {
                assert(same_rank(last, x));
                lemma_same_rank_le(last, x);
                assert(false);
            }
        }
    }
}

/// The sorted sequence respects the pin-then-date order everywhere.
pub proof fn lemma_sort_spec_sorted(s: Seq<Post>)
    ensures
        sorted_by_rank(sort_spec(s)),
        sort_spec(s).len() == s.len(),
    decreases s.len(),
{
    if s.len() > 0 {
        lemma_sort_spec_sorted(s.drop_last());
        lemma_insert_sorted_props(sort_spec(s.drop_last()), s.last());
    }
}

/// Sorting permutes the posts: the sorted sequence holds exactly the posts
/// of the input, with multiplicity.
pub proof fn lemma_sort_spec_permutes(s: Seq<Post>)
    ensures
        sort_spec(s).to_multiset() == s.to_multiset(),
    decreases s.len(),
{
    broadcast use vstd::seq_lib::group_to_multiset_ensures;

    if s.len() == 0 {
        assert(sort_spec(s).to_multiset() =~= s.to_multiset());
    } else {
        let dl = s.drop_last();
        lemma_sort_spec_permutes(dl);
        lemma_sort_spec_sorted(dl);
        lemma_insert_sorted_props(sort_spec(dl), s.last());
        assert(dl.push(s.last()) =~= s);
        assert(dl.push(s.last()).to_multiset() =~= dl.to_multiset().insert(s.last()));
    }
}

/// Sorting is stable: for every rank class, the posts of that class appear
/// in the sorted sequence exactly as they appeared in the input, in the same
/// relative order.
pub proof fn lemma_sort_spec_stable(s: Seq<Post>, p: Post)
    ensures
        rank_class(sort_spec(s), p) == rank_class(s, p),
    decreases s.len(),
{
    if s.len() == 0 {
        lemma_rank_class_empty(p);
        assert(rank_class(s, p) == rank_class(Seq::empty(), p));
    } else {
        let dl = s.drop_last();
        lemma_sort_spec_stable(dl, p);
        lemma_sort_spec_sorted(dl);
        lemma_insert_sorted_props(sort_spec(dl), s.last());
        assert(rank_class(sort_spec(s), p) == rank_class(sort_spec(dl).push(s.last()), p));
        lemma_rank_class_push(sort_spec(dl), s.last(), p);
        lemma_rank_class_push(dl, s.last(), p);
        assert(dl.push(s.last()) =~= s);
    }
}

/// Pinned posts precede all unpinned posts in the sorted sequence.
pub proof fn lemma_sort_spec_pinned_first(s: Seq<Post>)
    ensures
        forall|i: int, j: int|
            0 <= i < j < sort_spec(s).len() && !sort_spec(s)[i].metadata.pined ==> !sort_spec(
                s,
            )[j].metadata.pined,
{
    lemma_sort_spec_sorted(s);
    assert forall|i: int, j: int|
        0 <= i < j < sort_spec(s).len() && !sort_spec(s)[i].metadata.pined implies !sort_spec(
        s,
    )[j].metadata.pined by {
        assert(rank_le(sort_spec(s)[i], sort_spec(s)[j]));
    }
}

proof fn lemma_insert_sorted_at(s: Seq<Post>, x: Post, j: int)
    requires
        sorted_by_rank(s),
        0 <= j <= s.len(),
        forall|k: int| j <= k < s.len() ==> !rank_le(s[k], x),
        j > 0 ==> rank_le(s[j - 1], x),
    ensures
        insert_sorted(s, x) == s.insert(j, x),
    decreases s.len(),
{
    if j == s.len() {
        if s.len() == 0 {
            assert(seq![x] =~= s.insert(0, x));
        } else {
            assert(rank_le(s.last(), x));
            assert(s.push(x) =~= s.insert(j, x));
        }
    } else {
        assert(!rank_le(s.last(), x));
        let dl = s.drop_last();
        assert(sorted_by_rank(dl));
        lemma_insert_sorted_at(dl, x, j);
        assert(insert_sorted(s, x) == dl.insert(j, x).push(s.last()));
        assert(dl.insert(j, x).push(s.last()) =~= s.insert(j, x));
    }
}

fn lex_le_exec(a: &str, b: &str) -> (r: bool)
    ensures
        r == lex_le(a@, b@),
{
    let na = a.unicode_len();
    let nb = b.unicode_len();
    let mut i: usize = 0;
    proof {
        assert(a@.skip(0) =~= a@);
        assert(b@.skip(0) =~= b@);
    }
    loop
        invariant
            i <= na,
            i <= nb,
            na == a@.len(),
            nb == b@.len(),
            lex_le(a@, b@) == lex_le(a@.skip(i as int), b@.skip(i as int)),
        decreases na - i,
    {
        proof {
            assert(a@.skip(i as int).len() == na - i);
            assert(b@.skip(i as int).len() == nb - i);
        }
        if i >= na {
            return true;
        }
        if i >= nb {
            return false;
        }
        let ca = a.get_char(i) as u32;
        let cb = b.get_char(i) as u32;
        proof {
            assert(a@.skip(i as int)[0] == a@[i as int]);
            assert(b@.skip(i as int)[0] == b@[i as int]);
        }
        if ca < cb {
            return true;
        }
        if ca > cb {
            return false;
        }
        proof {
            assert(a@.skip(i as int).drop_first() =~= a@.skip(i as int + 1));
            assert(b@.skip(i as int).drop_first() =~= b@.skip(i as int + 1));
        }
        i += 1;
    }
}

/// Decides `rank_le` on two posts.
pub fn rank_le_exec(a: &Post, b: &Post) -> (r: bool)
    ensures
        r == rank_le(*a, *b),
{
    if a.metadata.pined != b.metadata.pined {
        a.metadata.pined
    } else {
        lex_le_exec(a.modified_time.as_str(), b.modified_time.as_str())
    }
}

/// Sorts posts by the pin-then-date order, stably.
pub fn sort_posts(posts: &Vec<Post>) -> (r: Vec<Post>)
    ensures
        r@ == sort_spec(posts@),
{
    let mut out: Vec<Post> = Vec::new();
    let mut idx: usize = 0;
    while idx < posts.len()
        invariant
            idx <= posts@.len(),
            out@ == sort_spec(posts@.take(idx as int)),
            sorted_by_rank(out@),
        decreases posts@.len() - idx,
    {
        let x = crate::post::clone_post(&posts[idx]);
        let mut j: usize = out.len();
        while j > 0 && !rank_le_exec(&out[j - 1], &x)
            invariant
                j <= out@.len(),
                forall|k: int| j <= k < out@.len() ==> !rank_le(out@[k], x),
            decreases j,
        {
            j -= 1;
        }
        proof {
            lemma_insert_sorted_at(out@, x, j as int);
            lemma_insert_sorted_props(out@, x);
            assert(posts@.take(idx as int + 1).drop_last() =~= posts@.take(idx as int));
            assert(posts@.take(idx as int + 1).last() == posts@[idx as int]);
            assert(sort_spec(posts@.take(idx as int + 1)) == insert_sorted(out@, x));
        }
        out.insert(j, x);
        idx += 1;
    }
    proof {
        assert(posts@.take(posts@.len() as int) =~= posts@);
    }
    out
}

} // verus!
