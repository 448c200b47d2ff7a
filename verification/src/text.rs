//! Plain-text preview derivation: byte-budget truncation on a character
//! boundary, and stripping of markdown noise (newlines, fenced code blocks,
//! inline code spans).

use vstd::prelude::*;

verus! {

use vstd::utf8::{is_char_boundary, encode_utf8, valid_utf8};
use vstd::string::StringSliceAdditionalSpecFns;
use vstd::string::StrSliceExecFns;
use vstd::string::StringExecFns;

/// Byte budget for a post description.
pub const MAX_DESC_LENGTH: usize = 600;

/// The byte offset at which a description slice actually ends when it is
/// asked to end at `index`: `index` itself when it is at or past the end of
/// the text, otherwise the nearest character boundary at or after `index`.
pub open spec fn next_boundary(bytes: Seq<u8>, index: int) -> int
    recommends
        valid_utf8(bytes),
        0 <= index,
    decreases bytes.len() - index,
    when 0 <= index
{
    if bytes.len() <= index {
        index
    } else if is_char_boundary(bytes, index) {
        index
    } else {
        next_boundary(bytes, index + 1)
    }
}

/// Where the description of a text with these bytes is cut: the whole text
/// when it fits the budget, otherwise the first character boundary at or
/// after the budget.
pub open spec fn desc_cut(bytes: Seq<u8>) -> int {
    if bytes.len() <= MAX_DESC_LENGTH {
        bytes.len() as int
    } else {
        next_boundary(bytes, MAX_DESC_LENGTH as int)
    }
}

proof fn lemma_next_boundary_props(bytes: Seq<u8>, i: int)
    requires
        valid_utf8(bytes),
        0 <= i <= bytes.len(),
    ensures
        i <= next_boundary(bytes, i) <= bytes.len(),
        is_char_boundary(bytes, next_boundary(bytes, i)),
    decreases bytes.len() - i,
{
    vstd::utf8::is_char_boundary_start_end_of_seq(bytes);
    if bytes.len() <= i {
    } else if is_char_boundary(bytes, i) {
    } else {
        lemma_next_boundary_props(bytes, i + 1);
    }
}

proof fn lemma_boundary_within_window(bytes: Seq<u8>, i: int)
    requires
        valid_utf8(bytes),
        0 <= i <= bytes.len(),
    ensures
        exists|k: int|
            i <= k <= i + 3 && k <= bytes.len() && #[trigger] is_char_boundary(bytes, k),
    decreases bytes.len(),
{
    if i == 0 || i == bytes.len() {
        vstd::utf8::is_char_boundary_start_end_of_seq(bytes);
    } else {
        let w = vstd::utf8::length_of_first_scalar(bytes);
        let rest = vstd::utf8::pop_first_scalar(bytes);
        assert(1 <= w <= 4 && w <= bytes.len());
        assert(valid_utf8(rest));
        assert(rest.len() == bytes.len() - w);
        if i < w {
            assert(is_char_boundary(rest, 0));
            assert(is_char_boundary(bytes, w));
        } else {
            lemma_boundary_within_window(rest, i - w);
            let k = choose|k: int|
                i - w <= k <= i - w + 3 && k <= rest.len() && #[trigger] is_char_boundary(rest, k);
            assert(is_char_boundary(bytes, k + w));
        }
    }
}

proof fn lemma_next_boundary_min(bytes: Seq<u8>, i: int, k: int)
    requires
        valid_utf8(bytes),
        0 <= i <= k <= bytes.len(),
        is_char_boundary(bytes, k),
    ensures
        next_boundary(bytes, i) <= k,
    decreases k - i,
{
    if bytes.len() <= i {
    } else if is_char_boundary(bytes, i) {
    } else {
        assert(i != k);
        lemma_next_boundary_min(bytes, i + 1, k);
    }
}

/// The description cut always lands on a character boundary, never grows the
/// text, keeps a text that already fits the budget whole, respects the
/// budget whenever the budget offset itself is a character boundary, and in
/// any case overshoots it by at most the three bytes needed to keep the
/// straddling character whole.
pub proof fn lemma_desc_cut(bytes: Seq<u8>)
    requires
        valid_utf8(bytes),
    ensures
        0 <= desc_cut(bytes) <= bytes.len(),
        is_char_boundary(bytes, desc_cut(bytes)),
        bytes.len() <= MAX_DESC_LENGTH ==> desc_cut(bytes) == bytes.len(),
        is_char_boundary(bytes, MAX_DESC_LENGTH as int) ==> desc_cut(bytes) <= MAX_DESC_LENGTH,
        desc_cut(bytes) <= MAX_DESC_LENGTH + 3,
{
    vstd::utf8::is_char_boundary_start_end_of_seq(bytes);
    if bytes.len() > MAX_DESC_LENGTH {
        lemma_next_boundary_props(bytes, MAX_DESC_LENGTH as int);
        lemma_boundary_within_window(bytes, MAX_DESC_LENGTH as int);
        let k = choose|k: int|
            MAX_DESC_LENGTH <= k <= MAX_DESC_LENGTH + 3 && k <= bytes.len()
                && #[trigger] is_char_boundary(bytes, k);
        lemma_next_boundary_min(bytes, MAX_DESC_LENGTH as int, k);
    }
}

/// Returns the smallest byte offset `>= index` that is a character boundary
/// of `s`, or `index` itself when `index` is at or past the end of `s`.
pub fn find_char_boundary(s: &str, index: usize) -> (r: usize)
    ensures
        r == next_boundary(s.spec_bytes(), index as int),
        index <= r,
{
    proof {
        vstd::utf8::encode_utf8_valid_utf8(s@);
        vstd::utf8::is_char_boundary_start_end_of_seq(s.spec_bytes());
    }
    let n = s.as_bytes().len();
    proof {
        assert(n == s.spec_bytes().len());
    }
    if n <= index {
        return index;
    }

    let mut new_index = index;
    while !s.is_char_boundary(new_index)
        invariant
            n == s.spec_bytes().len(),
            index <= new_index <= s.spec_bytes().len(),
            valid_utf8(s.spec_bytes()),
            is_char_boundary(s.spec_bytes(), s.spec_bytes().len() as int),
            next_boundary(s.spec_bytes(), index as int) == next_boundary(
                s.spec_bytes(),
                new_index as int,
            ),
        decreases s.spec_bytes().len() - new_index,
    {
        new_index += 1;
    }

    new_index
}

/// Truncates `s` to the description byte budget. The cut is made at
/// `desc_cut`: at the budget when that offset is a character boundary, and
/// otherwise moved forward to the next boundary so that no character is ever
/// split.
pub fn truncate(s: &str) -> (r: String)
    ensures
        encode_utf8(r@) == s.spec_bytes().subrange(0, desc_cut(s.spec_bytes())),
{
    proof {
        vstd::utf8::encode_utf8_valid_utf8(s@);
        lemma_desc_cut(s.spec_bytes());
    }
    let len = s.as_bytes().len();
    let slice_len = if len > MAX_DESC_LENGTH {
        MAX_DESC_LENGTH
    } else {
        len
    };
    let cut = find_char_boundary(s, slice_len);
    proof {
        if len > MAX_DESC_LENGTH {
            assert(cut == desc_cut(s.spec_bytes()));
        } else {
            assert(cut == len);
        }
        lemma_next_boundary_props(s.spec_bytes(), slice_len as int);
    }
    let (prefix, _) = s.split_at(cut);
    prefix.to_owned()
}

/// The smallest position `>= from` holding a backtick, or the length of `s`
/// when there is none.
pub open spec fn next_tick(s: Seq<char>, from: int) -> int
    recommends
        0 <= from <= s.len(),
    decreases s.len() - from,
    when 0 <= from
{
    if from >= s.len() {
        s.len() as int
    } else if s[from] == '`' {
        from
    } else {
        next_tick(s, from + 1)
    }
}

/// A fenced code block begins at `i`: three backticks, at least one
/// non-backtick character, then three backticks again.
pub open spec fn fenced_at(s: Seq<char>, i: int) -> bool
    recommends
        0 <= i <= s.len(),
{
    &&& i + 3 <= s.len()
    &&& s[i] == '`' && s[i + 1] == '`' && s[i + 2] == '`'
    &&& {
        let j = next_tick(s, i + 3);
        &&& j > i + 3
        &&& j + 3 <= s.len()
        &&& s[j + 1] == '`' && s[j + 2] == '`'
    }
}

/// The position just past the fenced code block beginning at `i`.
pub open spec fn fenced_stop(s: Seq<char>, i: int) -> int {
    next_tick(s, i + 3) + 3
}

/// An inline code span begins at `i`: a backtick, at least one non-backtick
/// character, then a backtick.
pub open spec fn inline_at(s: Seq<char>, i: int) -> bool
    recommends
        0 <= i <= s.len(),
{
    &&& i < s.len() && s[i] == '`'
    &&& {
        let j = next_tick(s, i + 1);
        j > i + 1 && j < s.len()
    }
}

/// The position just past the inline code span beginning at `i`.
pub open spec fn inline_stop(s: Seq<char>, i: int) -> int {
    next_tick(s, i + 1) + 1
}

/// What stripping leaves of `s` from position `i` on. At each position, in
/// order of precedence: a bare newline is dropped, a fenced code block is
/// dropped whole, an inline code span is dropped whole, and any other
/// character is kept.
pub open spec fn strip_from(s: Seq<char>, i: int) -> Seq<char>
    recommends
        0 <= i <= s.len(),
    decreases s.len() - i,
    when 0 <= i <= s.len()
{
    if i >= s.len() {
        Seq::empty()
    } else if s[i] == '\n' {
        strip_from(s, i + 1)
    } else if fenced_at(s, i) {
        strip_from(s, fenced_stop(s, i))
    } else if inline_at(s, i) {
        strip_from(s, inline_stop(s, i))
    } else {
        seq![s[i]] + strip_from(s, i + 1)
    }
}

/// The stripped form of a whole text.
pub open spec fn stripped(s: Seq<char>) -> Seq<char> {
    strip_from(s, 0)
}

proof fn lemma_next_tick_props(s: Seq<char>, from: int)
    requires
        0 <= from <= s.len(),
    ensures
        from <= next_tick(s, from) <= s.len(),
        next_tick(s, from) < s.len() ==> s[next_tick(s, from)] == '`',
        forall|k: int| from <= k < next_tick(s, from) ==> s[k] != '`',
    decreases s.len() - from,
{
    if from >= s.len() {
    } else if s[from] == '`' {
    } else {
        lemma_next_tick_props(s, from + 1);
    }
}

/// Stripping never keeps a newline character.
pub proof fn lemma_strip_no_newline(s: Seq<char>)
    ensures
        forall|k: int| 0 <= k < stripped(s).len() ==> stripped(s)[k] != '\n',
{
    lemma_strip_from_no_newline(s, 0);
}

proof fn lemma_strip_from_no_newline(s: Seq<char>, i: int)
    requires
        0 <= i <= s.len(),
    ensures
        forall|k: int| 0 <= k < strip_from(s, i).len() ==> strip_from(s, i)[k] != '\n',
    decreases s.len() - i,
{
    if i >= s.len() {
    } else if s[i] == '\n' {
        lemma_strip_from_no_newline(s, i + 1);
        assert(strip_from(s, i) == strip_from(s, i + 1));
    } else if fenced_at(s, i) {
        lemma_next_tick_props(s, i + 3);
        lemma_strip_from_no_newline(s, fenced_stop(s, i));
        assert(strip_from(s, i) == strip_from(s, fenced_stop(s, i)));
    } else if inline_at(s, i) {
        lemma_next_tick_props(s, i + 1);
        lemma_strip_from_no_newline(s, inline_stop(s, i));
        assert(strip_from(s, i) == strip_from(s, inline_stop(s, i)));
    } else {
        lemma_strip_from_no_newline(s, i + 1);
        let t = strip_from(s, i);
        assert(t == seq![s[i]] + strip_from(s, i + 1));
        assert forall|k: int| 0 <= k < t.len() implies t[k] != '\n' by {
            if k == 0 {
                assert(t[0] == s[i]);
            } else {
                assert(t[k] == strip_from(s, i + 1)[k - 1]);
            }
        }
    }
}

/// A fenced code block reached by the scan is removed whole.
pub proof fn lemma_strip_removes_fenced(s: Seq<char>, i: int)
    requires
        0 <= i <= s.len(),
        fenced_at(s, i),
    ensures
        strip_from(s, i) == strip_from(s, fenced_stop(s, i)),
{
}

/// An inline code span reached by the scan, not opening a fenced block, is
/// removed whole.
pub proof fn lemma_strip_removes_inline(s: Seq<char>, i: int)
    requires
        0 <= i <= s.len(),
        inline_at(s, i),
        !fenced_at(s, i),
    ensures
        strip_from(s, i) == strip_from(s, inline_stop(s, i)),
{
}

/// A newline reached by the scan is removed.
pub proof fn lemma_strip_removes_newline(s: Seq<char>, i: int)
    requires
        0 <= i < s.len(),
        s[i] == '\n',
    ensures
        strip_from(s, i) == strip_from(s, i + 1),
{
}

fn next_tick_from(s: &str, from: usize, n: usize) -> (r: usize)
    requires
        from <= n,
        n == s@.len(),
    ensures
        r == next_tick(s@, from as int),
        from <= r <= n,
{
    proof {
        lemma_next_tick_props(s@, from as int);
    }
    let mut j = from;
    while j < n
        invariant
            from <= j <= n,
            n == s@.len(),
            next_tick(s@, from as int) == next_tick(s@, j as int),
        decreases n - j,
    {
        let c = s.get_char(j);
        if c == '`' {
            return j;
        }
        j += 1;
    }
    j
}

/// Strips markdown noise from `content`: every newline is dropped, every
/// fenced code block (triple backticks around non-backtick text) and every
/// inline code span (single backticks around non-backtick text) is dropped
/// whole, scanning left to right with fenced blocks taking precedence.
pub(crate) fn strip_noise(content: &str) -> (r: String)
    ensures
        r@ == stripped(content@),
{
    let n = content.unicode_len();
    let ghost s = content@;
    let mut out = String::new();
    let mut i: usize = 0;
    proof {
        assert(out@ + strip_from(s, 0) =~= strip_from(s, 0));
    }
    while i < n
        invariant
            i <= n,
            n == s.len(),
            s == content@,
            out@ + strip_from(s, i as int) == strip_from(s, 0),
        decreases n - i,
    {
        let c = content.get_char(i);
        if c == '\n' {
            i += 1;
        } else if c == '`' {
            let mut matched_end: usize = 0;
            let mut matched = false;
            if n - i > 2 {
                let t1 = content.get_char(i + 1);
                let t2 = content.get_char(i + 2);
                if t1 == '`' && t2 == '`' {
                    let j = next_tick_from(content, i + 3, n);
                    proof {
                        lemma_next_tick_props(s, i + 3);
                    }
                    if j > i + 3 && n - j > 2 {
                        let u1 = content.get_char(j + 1);
                        let u2 = content.get_char(j + 2);
                        if u1 == '`' && u2 == '`' {
                            matched = true;
                            matched_end = j + 3;
                            proof {
                                assert(fenced_at(s, i as int));
                                assert(matched_end == fenced_stop(s, i as int));
                            }
                        }
                    }
                }
            }
            if matched {
                proof {
                    assert(strip_from(s, i as int) == strip_from(s, matched_end as int));
                }
                i = matched_end;
            } else {
                proof {
                    assert(!fenced_at(s, i as int)) by {
                        if fenced_at(s, i as int) {
                            lemma_next_tick_props(s, i + 3);
                        }
                    }
                }
                let j2 = next_tick_from(content, i + 1, n);
                proof {
                    lemma_next_tick_props(s, i + 1);
                }
                if j2 > i + 1 && j2 < n {
                    proof {
                        assert(inline_at(s, i as int));
                        assert(strip_from(s, i as int) == strip_from(s, (j2 + 1) as int));
                    }
                    i = j2 + 1;
                } else {
                    proof {
                        assert(!inline_at(s, i as int));
                        assert(strip_from(s, i as int) == seq![s[i as int]] + strip_from(
                            s,
                            i as int + 1,
                        ));
                    }
                    let piece = content.substring_char(i, i + 1);
                    out.append(piece);
                    proof {
                        assert(piece@ =~= seq![s[i as int]]);
                        assert(out@ + strip_from(s, i as int + 1) =~= strip_from(s, 0));
                    }
                    i += 1;
                }
            }
        } else {
            proof {
                assert(!fenced_at(s, i as int));
                assert(!inline_at(s, i as int));
                assert(strip_from(s, i as int) == seq![s[i as int]] + strip_from(s, i as int + 1));
            }
            let piece = content.substring_char(i, i + 1);
            out.append(piece);
            proof {
                assert(piece@ =~= seq![s[i as int]]);
                assert(out@ + strip_from(s, i as int + 1) =~= strip_from(s, 0));
            }
            i += 1;
        }
    }
    proof {
        assert(out@ + strip_from(s, n as int) =~= out@);
    }
    out
}

} // verus!
