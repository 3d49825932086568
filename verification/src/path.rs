//! Request paths and their segments.
//!
//! A request path is a slash followed by segments that are separated by
//! single slashes: `/` has no segment, `/books/42` has two. A text that is not
//! of this shape (an empty text, a doubled or trailing slash) is no path, and
//! no route is selected by it.

use vstd::prelude::*;

verus! {

/// A path segment: a non-empty run of characters without a slash.
pub open spec fn is_segment(s: Seq<char>) -> bool {
    s.len() > 0 && forall|i: int| 0 <= i < s.len() ==> s[i] != '/'
}

/// Every member of `segs` is a path segment.
pub open spec fn all_segments(segs: Seq<Seq<char>>) -> bool {
    forall|i: int| 0 <= i < segs.len() ==> is_segment(#[trigger] segs[i])
}

/// The segments in order, each behind a slash.
pub open spec fn joined(segs: Seq<Seq<char>>) -> Seq<char>
    decreases segs.len(),
{
    if segs.len() == 0 {
        Seq::empty()
    } else {
        joined(segs.drop_last()) + seq!['/'] + segs.last()
    }
}

/// The path that consists of the segments `segs`; the path without segments is `/`.
pub open spec fn path_text(segs: Seq<Seq<char>>) -> Seq<char> {
    if segs.len() == 0 {
        seq!['/']
    } else {
        joined(segs)
    }
}

/// `segs` are the segments of the path `path`.
pub open spec fn splits_into(path: Seq<char>, segs: Seq<Seq<char>>) -> bool {
    all_segments(segs) && path_text(segs) == path
}

/// The segments of `path`, or `None` where `path` is no path.
pub open spec fn segments_of(path: Seq<char>) -> Option<Seq<Seq<char>>> {
    if exists|segs: Seq<Seq<char>>| splits_into(path, segs) {
        Some(choose|segs: Seq<Seq<char>>| splits_into(path, segs))
    } else {
        None
    }
}

/// The texts of a sequence of strings.
pub open spec fn texts(v: Seq<String>) -> Seq<Seq<char>> {
    v.map_values(|s: String| s@)
}

/// Joined segments begin with a slash, do not end with one, and hold no two
/// slashes in a row.
pub proof fn lemma_joined_shape(segs: Seq<Seq<char>>)
    requires
        all_segments(segs),
        segs.len() > 0,
    ensures
        joined(segs).len() >= 2,
        joined(segs)[0] == '/',
        joined(segs).last() != '/',
        forall|k: int|
            0 <= k < joined(segs).len() - 1 && #[trigger] joined(segs)[k] == '/' ==> joined(
                segs,
            )[k + 1] != '/',
    decreases segs.len(),
{
    let head = joined(segs.drop_last());
    let tail = segs.last();
    let whole = joined(segs);
    assert(is_segment(tail));
    assert(whole == head + seq!['/'] + tail);
    if segs.len() > 1 {
        lemma_joined_shape(segs.drop_last());
    }
    assert forall|k: int| 0 <= k < whole.len() - 1 && #[trigger] whole[k] == '/' implies whole[k
        + 1] != '/' by {
        if k + 1 < head.len() {
            assert(whole[k] == head[k]);
            assert(whole[k + 1] == head[k + 1]);
        } else if k + 1 == head.len() {
            assert(whole[k] == head.last());
        } else if k == head.len() {
            assert(whole[k + 1] == tail[0]);
        } else {
            assert(whole[k] == tail[k - head.len() - 1]);
        }
    }
}

/// Two lists of segments that join to the same text are the same list.
pub proof fn lemma_joined_injective(a: Seq<Seq<char>>, b: Seq<Seq<char>>)
    requires
        all_segments(a),
        all_segments(b),
        joined(a) == joined(b),
    ensures
        a == b,
    decreases a.len(),
{
    if a.len() == 0 {
        if b.len() > 0 {
            lemma_joined_shape(b);
        }
        assert(a =~= b);
    } else {
        lemma_joined_shape(a);
        if b.len() == 0 {
            assert(joined(b).len() == 0);
        }
        let whole = joined(a);
        let (ha, ta) = (joined(a.drop_last()), a.last());
        let (hb, tb) = (joined(b.drop_last()), b.last());
        assert(is_segment(ta) && is_segment(tb));
        assert(whole == ha + seq!['/'] + ta);
        assert(whole == hb + seq!['/'] + tb);
        if ta.len() < tb.len() {
            assert(whole[ha.len() as int] == '/');
            assert(whole[ha.len() as int] == tb[ha.len() - hb.len() - 1]);
        } else if tb.len() < ta.len() {
            assert(whole[hb.len() as int] == '/');
            assert(whole[hb.len() as int] == ta[hb.len() - ha.len() - 1]);
        }
        assert(ha.len() == hb.len());
        assert(ta =~= tb) by {
            assert forall|k: int| 0 <= k < ta.len() implies ta[k] == tb[k] by {
                assert(whole[ha.len() + 1 + k] == ta[k]);
                assert(whole[hb.len() + 1 + k] == tb[k]);
            }
        }
        assert(ha =~= hb) by {
            assert forall|k: int| 0 <= k < ha.len() implies ha[k] == hb[k] by {
                assert(whole[k] == ha[k]);
                assert(whole[k] == hb[k]);
            }
        }
        lemma_joined_injective(a.drop_last(), b.drop_last());
        assert(a =~= a.drop_last().push(ta));
        assert(b =~= b.drop_last().push(tb));
    }
}

/// A path has one list of segments.
pub proof fn lemma_split_unique(path: Seq<char>, a: Seq<Seq<char>>, b: Seq<Seq<char>>)
    requires
        splits_into(path, a),
        splits_into(path, b),
    ensures
        a == b,
{
    if a.len() > 0 {
        lemma_joined_shape(a);
    }
    if b.len() > 0 {
        lemma_joined_shape(b);
    }
    if a.len() == 0 || b.len() == 0 {
        assert(a =~= b);
    } else {
        lemma_joined_injective(a, b);
    }
}

/// What `segments_of` yields for a text that splits into `segs`.
pub proof fn lemma_segments_of(path: Seq<char>, segs: Seq<Seq<char>>)
    requires
        splits_into(path, segs),
    ensures
        segments_of(path) == Some(segs),
{
    let chosen = choose|s: Seq<Seq<char>>| splits_into(path, s);
    lemma_split_unique(path, chosen, segs);
}

/// One more segment behind the joined ones.
pub proof fn lemma_joined_push(segs: Seq<Seq<char>>, seg: Seq<char>)
    ensures
        joined(segs.push(seg)) == joined(segs) + seq!['/'] + seg,
{
    assert(segs.push(seg).drop_last() =~= segs);
}

/// Copies the characters of `s` into a vector.
pub fn chars_of(s: &str) -> (v: Vec<char>)
    ensures
        v@ == s@,
{
    let mut v: Vec<char> = Vec::new();
    for c in it: s.chars()
        invariant
            v@ == it.seq().take(it.index() as int),
            it.seq() == s@,
    {
        v.push(c);
    }
    v
}

/// Splits a request path into its segments.
///
/// Returns `None` where `path` is no path: where it is empty, does not begin
/// with a slash, ends with a slash behind a segment, or holds an empty segment.
pub fn split_path(path: &str) -> (r: Option<Vec<String>>)
    ensures
        match r {
            Some(v) => segments_of(path@) == Some(texts(v@)),
            None => segments_of(path@) is None,
        },
{
    let chars = chars_of(path);
    let n = chars.len();
    if n == 0 || chars[0] != '/' {
        proof {
            assert forall|segs: Seq<Seq<char>>| !splits_into(path@, segs) by {
                if splits_into(path@, segs) && segs.len() > 0 {
                    lemma_joined_shape(segs);
                }
            }
        }
        return None;
    }
    let mut out: Vec<String> = Vec::new();
    if n == 1 {
        proof {
            assert(texts(out@) =~= Seq::<Seq<char>>::empty());
            assert(path@ =~= seq!['/']);
            lemma_segments_of(path@, texts(out@));
        }
        return Some(out);
    }
    let mut start: usize = 1;
    let mut i: usize = 1;
    while i < n
        invariant
            n == chars@.len(),
            chars@ == path@,
            n >= 2,
            1 <= start <= i <= n,
            forall|k: int| start <= k < i ==> chars@[k] != '/',
            all_segments(texts(out@)),
            joined(texts(out@)) + seq!['/'] == path@.take(start as int),
        decreases n - i,
    {
        if chars[i] == '/' {
            if i == start {
                proof {
                    assert(path@.take(start as int).last() == '/');
                    assert(path@[i - 1] == '/' && path@[i as int] == '/');
                    assert forall|segs: Seq<Seq<char>>| !splits_into(path@, segs) by {
                        if splits_into(path@, segs) && segs.len() > 0 {
                            lemma_joined_shape(segs);
                        }
                    }
                }
                return None;
            }
            let piece = path.substring_char(start, i);
            let seg = piece.to_owned();
            proof {
                let before = texts(out@);
                assert(is_segment(seg@));
                assert(texts(out@.push(seg)) =~= before.push(seg@));
                lemma_joined_push(before, seg@);
                assert(path@.take(i + 1) =~= path@.take(start as int) + seg@ + seq!['/']);
                assert(joined(before.push(seg@)) + seq!['/'] =~= path@.take(i + 1));
            }
            out.push(seg);
            start = i + 1;
        }
        i += 1;
    }
    if start == n {
        proof {
            assert(path@.take(start as int).last() == '/');
            assert(path@.last() == '/');
            assert forall|segs: Seq<Seq<char>>| !splits_into(path@, segs) by {
                if splits_into(path@, segs) && segs.len() > 0 {
                    lemma_joined_shape(segs);
                }
            }
        }
        return None;
    }
    let piece = path.substring_char(start, n);
    let seg = piece.to_owned();
    proof {
        let before = texts(out@);
        assert(is_segment(seg@));
        assert(texts(out@.push(seg)) =~= before.push(seg@));
        lemma_joined_push(before, seg@);
        assert(path@ =~= path@.take(start as int) + seg@);
        assert(joined(before.push(seg@)) =~= path@);
        lemma_segments_of(path@, before.push(seg@));
    }
    out.push(seg);
    Some(out)
}

} // verus!
