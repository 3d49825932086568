//! Path patterns.
//!
//! A pattern is a list of segments. A literal segment accepts the path segment
//! that equals it; a parameter accepts any single path segment and binds it
//! under the parameter's name. The text of a pattern writes a parameter in
//! braces: `/books/{book_id}`.

use crate::path::{
    chars_of, is_segment, joined, lemma_joined_push, lemma_split_unique, path_text, segments_of,
    texts,
};
use vstd::prelude::*;

verus! {

/// A name that can stand in a pattern: non-empty, without a slash or a brace.
pub open spec fn is_name(s: Seq<char>) -> bool {
    s.len() > 0 && forall|i: int|
        0 <= i < s.len() ==> #[trigger] s[i] != '/' && s[i] != '{' && s[i] != '}'
}

/// One segment of a pattern.
#[derive(Debug, PartialEq, Eq)]
pub enum Segment {
    /// Accepts the path segment that equals the text.
    Literal(String),
    /// Accepts every path segment and binds it under the name.
    Param(String),
}

/// The mathematical value of a [`Segment`].
pub enum SegmentView {
    Literal(Seq<char>),
    Param(Seq<char>),
}

impl View for Segment {
    type V = SegmentView;

    open spec fn view(&self) -> SegmentView {
        match self {
            Segment::Literal(text) => SegmentView::Literal(text@),
            Segment::Param(name) => SegmentView::Param(name@),
        }
    }
}

/// A path segment bound to a parameter's name.
#[derive(Debug, PartialEq, Eq)]
pub struct Param {
    pub name: String,
    pub value: String,
}

/// The mathematical value of a [`Param`].
pub struct ParamView {
    pub name: Seq<char>,
    pub value: Seq<char>,
}

impl View for Param {
    type V = ParamView;

    open spec fn view(&self) -> ParamView {
        ParamView { name: self.name@, value: self.value@ }
    }
}

/// The values of a sequence of segments.
pub open spec fn segment_views(v: Seq<Segment>) -> Seq<SegmentView> {
    v.map_values(|s: Segment| s@)
}

/// The values of a sequence of bound parameters.
pub open spec fn param_views(v: Seq<Param>) -> Seq<ParamView> {
    v.map_values(|p: Param| p@)
}

/// The literal text or the parameter's name.
pub open spec fn segment_name(seg: SegmentView) -> Seq<char> {
    match seg {
        SegmentView::Literal(text) => text,
        SegmentView::Param(name) => name,
    }
}

/// Every literal and every parameter's name is a name.
pub open spec fn valid_pattern(p: Seq<SegmentView>) -> bool {
    forall|i: int| 0 <= i < p.len() ==> is_name(segment_name(#[trigger] p[i]))
}

/// The pattern segment accepts the path segment `text`.
pub open spec fn segment_accepts(seg: SegmentView, text: Seq<char>) -> bool {
    match seg {
        SegmentView::Literal(lit) => lit == text,
        SegmentView::Param(_) => true,
    }
}

/// The pattern accepts the path segments `segs`: it has as many segments, and
/// each accepts the path segment at its place.
pub open spec fn pattern_accepts(p: Seq<SegmentView>, segs: Seq<Seq<char>>) -> bool {
    p.len() == segs.len() && forall|i: int|
        0 <= i < p.len() ==> segment_accepts(#[trigger] p[i], segs[i])
}

/// The pattern accepts the path `path`.
pub open spec fn pattern_selects(p: Seq<SegmentView>, path: Seq<char>) -> bool {
    segments_of(path) matches Some(segs) && pattern_accepts(p, segs)
}

/// What the parameters of `p` bind in `segs`, in the order of the pattern.
pub open spec fn captures(p: Seq<SegmentView>, segs: Seq<Seq<char>>) -> Seq<ParamView>
    recommends
        p.len() == segs.len(),
    decreases p.len(),
{
    if p.len() == 0 {
        Seq::empty()
    } else {
        let rest = captures(p.drop_last(), segs.drop_last());
        match p.last() {
            SegmentView::Literal(_) => rest,
            SegmentView::Param(name) => rest.push(ParamView { name, value: segs.last() }),
        }
    }
}

/// Some path segment may be accepted by both pattern segments.
pub open spec fn segments_overlap(a: SegmentView, b: SegmentView) -> bool {
    match (a, b) {
        (SegmentView::Literal(x), SegmentView::Literal(y)) => x == y,
        _ => true,
    }
}

/// Some path may be accepted by both patterns.
pub open spec fn patterns_overlap(p: Seq<SegmentView>, q: Seq<SegmentView>) -> bool {
    p.len() == q.len() && forall|i: int|
        0 <= i < p.len() ==> segments_overlap(#[trigger] p[i], q[i])
}

/// The text of a pattern segment: a parameter's name stands in braces.
pub open spec fn segment_text(seg: SegmentView) -> Seq<char> {
    match seg {
        SegmentView::Literal(text) => text,
        SegmentView::Param(name) => seq!['{'] + name + seq!['}'],
    }
}

/// The text of a pattern; the text of the pattern without segments is `/`.
pub open spec fn pattern_text(p: Seq<SegmentView>) -> Seq<char> {
    path_text(p.map_values(|s: SegmentView| segment_text(s)))
}

/// The pattern `p` begins with the segments of `prefix`.
pub open spec fn begins_with(p: Seq<SegmentView>, prefix: Seq<SegmentView>) -> bool {
    p.len() >= prefix.len() && p.take(prefix.len() as int) == prefix
}

/// A path pattern: segments that are literals or parameters, each with a
/// name.
#[derive(Debug, PartialEq, Eq)]
pub struct Pattern {
    segments: Vec<Segment>,
}

impl View for Pattern {
    type V = Seq<SegmentView>;

    closed spec fn view(&self) -> Seq<SegmentView> {
        segment_views(self.segments@)
    }
}

/// Tells whether `name` can stand in a pattern.
pub fn name_fits(name: &str) -> (fits: bool)
    ensures
        fits == is_name(name@),
{
    let chars = chars_of(name);
    if chars.len() == 0 {
        return false;
    }
    let mut i: usize = 0;
    while i < chars.len()
        invariant
            i <= chars@.len(),
            chars@ == name@,
            forall|k: int|
                0 <= k < i ==> #[trigger] name@[k] != '/' && name@[k] != '{' && name@[k] != '}',
        decreases chars@.len() - i,
    {
        let c = chars[i];
        if c == '/' || c == '{' || c == '}' {
            return false;
        }
        i += 1;
    }
    true
}

/// A segment equal to `seg`.
fn copy_segment(seg: &Segment) -> (copy: Segment)
    ensures
        copy@ == seg@,
{
    match seg {
        Segment::Literal(text) => Segment::Literal(text.clone()),
        Segment::Param(name) => Segment::Param(name.clone()),
    }
}

impl Pattern {
    #[verifier::type_invariant]
    spec fn names_fit(self) -> bool {
        valid_pattern(self@)
    }

    /// The pattern without segments, which accepts the path `/`.
    pub fn root() -> (p: Pattern)
        ensures
            p@ == Seq::<SegmentView>::empty(),
    {
        Pattern { segments: Vec::new() }
    }

    /// This pattern with one more literal segment.
    pub fn literal(self, text: &str) -> (p: Pattern)
        requires
            is_name(text@),
        ensures
            p@ == self@.push(SegmentView::Literal(text@)),
            valid_pattern(p@),
    {
        proof {
            use_type_invariant(&self);
        }
        let ghost before = self@;
        let mut segments = self.segments;
        let seg = Segment::Literal(text.to_owned());
        proof {
            assert(segment_views(segments@.push(seg)) =~= before.push(seg@));
        }
        segments.push(seg);
        Pattern { segments }
    }

    /// This pattern with one more parameter.
    pub fn param(self, name: &str) -> (p: Pattern)
        requires
            is_name(name@),
        ensures
            p@ == self@.push(SegmentView::Param(name@)),
            valid_pattern(p@),
    {
        proof {
            use_type_invariant(&self);
        }
        let ghost before = self@;
        let mut segments = self.segments;
        let seg = Segment::Param(name.to_owned());
        proof {
            assert(segment_views(segments@.push(seg)) =~= before.push(seg@));
        }
        segments.push(seg);
        Pattern { segments }
    }

    /// The number of segments.
    pub fn len(&self) -> (n: usize)
        ensures
            n == self@.len(),
    {
        self.segments.len()
    }

    /// The segment at place `i`.
    pub fn segment(&self, i: usize) -> (seg: &Segment)
        requires
            i < self@.len(),
        ensures
            seg@ == self@[i as int],
    {
        &self.segments[i]
    }

    /// The segments of this pattern followed by those of `tail`.
    pub fn join(&self, tail: &Pattern) -> (p: Pattern)
        ensures
            p@ == self@ + tail@,
            valid_pattern(p@),
    {
        proof {
            use_type_invariant(self);
            use_type_invariant(tail);
        }
        let mut segments: Vec<Segment> = Vec::new();
        let mut i: usize = 0;
        while i < self.segments.len()
            invariant
                i <= self.segments@.len(),
                segment_views(segments@) == self@.take(i as int),
            decreases self.segments@.len() - i,
        {
            let seg = copy_segment(&self.segments[i]);
            proof {
                assert(self@[i as int] == self.segments@[i as int]@);
                assert(segment_views(segments@.push(seg)) =~= segment_views(segments@).push(seg@));
                assert(self@.take(i as int).push(seg@) =~= self@.take(i + 1));
            }
            segments.push(seg);
            i += 1;
        }
        assert(self@.take(i as int) =~= self@);
        let mut k: usize = 0;
        while k < tail.segments.len()
            invariant
                k <= tail.segments@.len(),
                segment_views(segments@) == self@ + tail@.take(k as int),
            decreases tail.segments@.len() - k,
        {
            let seg = copy_segment(&tail.segments[k]);
            proof {
                assert(tail@[k as int] == tail.segments@[k as int]@);
                assert(segment_views(segments@.push(seg)) =~= segment_views(segments@).push(seg@));
                assert((self@ + tail@.take(k as int)).push(seg@) =~= self@ + tail@.take(k + 1));
            }
            segments.push(seg);
            k += 1;
        }
        assert(tail@.take(k as int) =~= tail@);
        Pattern { segments }
    }

    /// Tells whether some path may be accepted by both patterns.
    pub fn overlaps(&self, other: &Pattern) -> (b: bool)
        ensures
            b == patterns_overlap(self@, other@),
    {
        if self.segments.len() != other.segments.len() {
            return false;
        }
        let mut i: usize = 0;
        while i < self.segments.len()
            invariant
                i <= self.segments@.len(),
                self.segments@.len() == other.segments@.len(),
                forall|k: int| 0 <= k < i ==> segments_overlap(#[trigger] self@[k], other@[k]),
            decreases self.segments@.len() - i,
        {
            let apart = match (&self.segments[i], &other.segments[i]) {
                (Segment::Literal(x), Segment::Literal(y)) => !(*x == *y),
                _ => false,
            };
            if apart {
                assert(!segments_overlap(self@[i as int], other@[i as int]));
                return false;
            }
            i += 1;
        }
        true
    }

    /// Matches the path segments `segs` against this pattern.
    ///
    /// Returns what the parameters bind where the pattern accepts the
    /// segments, and `None` where it does not.
    pub fn capture(&self, segs: &Vec<String>) -> (r: Option<Vec<Param>>)
        ensures
            match r {
                Some(bound) => pattern_accepts(self@, texts(segs@)) && param_views(bound@)
                    == captures(self@, texts(segs@)),
                None => !pattern_accepts(self@, texts(segs@)),
            },
    {
        if self.segments.len() != segs.len() {
            return None;
        }
        let ghost given = texts(segs@);
        let mut bound: Vec<Param> = Vec::new();
        let mut i: usize = 0;
        while i < self.segments.len()
            invariant
                i <= self.segments@.len(),
                self.segments@.len() == segs@.len(),
                given == texts(segs@),
                forall|k: int| 0 <= k < i ==> segment_accepts(#[trigger] self@[k], given[k]),
                param_views(bound@) == captures(self@.take(i as int), given.take(i as int)),
            decreases self.segments@.len() - i,
        {
            proof {
                assert(self@.take(i + 1).drop_last() =~= self@.take(i as int));
                assert(given.take(i + 1).drop_last() =~= given.take(i as int));
            }
            match &self.segments[i] {
                Segment::Literal(text) => {
                    if !(*text == segs[i]) {
                        assert(!segment_accepts(self@[i as int], given[i as int]));
                        return None;
                    }
                },
                Segment::Param(name) => {
                    let param = Param { name: name.clone(), value: segs[i].clone() };
                    proof {
                        assert(param_views(bound@.push(param)) =~= param_views(bound@).push(
                            param@,
                        ));
                    }
                    bound.push(param);
                },
            }
            i += 1;
        }
        proof {
            assert(self@.take(i as int) =~= self@);
            assert(given.take(i as int) =~= given);
        }
        Some(bound)
    }

    /// The text of this pattern, a parameter's name in braces. The names of
    /// a pattern fit, so its text is the text of no other pattern.
    pub fn text(&self) -> (t: String)
        ensures
            t@ == pattern_text(self@),
            valid_pattern(self@),
    {
        proof {
            use_type_invariant(self);
        }
        let mut t = String::new();
        if self.segments.len() == 0 {
            proof {
                reveal_strlit("/");
                assert("/"@ =~= seq!['/']);
            }
            t.append("/");
            assert(t@ =~= seq!['/']);
            return t;
        }
        let ghost parts = self@.map_values(|s: SegmentView| segment_text(s));
        let mut i: usize = 0;
        while i < self.segments.len()
            invariant
                i <= self.segments@.len(),
                parts == self@.map_values(|s: SegmentView| segment_text(s)),
                t@ == joined(parts.take(i as int)),
            decreases self.segments@.len() - i,
        {
            proof {
                reveal_strlit("/");
                reveal_strlit("{");
                reveal_strlit("}");
                assert("/"@ =~= seq!['/']);
                assert("{"@ =~= seq!['{']);
                assert("}"@ =~= seq!['}']);
                assert(parts.take(i + 1) =~= parts.take(i as int).push(parts[i as int]));
                lemma_joined_push(parts.take(i as int), parts[i as int]);
            }
            t.append("/");
            match &self.segments[i] {
                Segment::Literal(text) => {
                    t.append(text.as_str());
                },
                Segment::Param(name) => {
                    t.append("{");
                    t.append(name.as_str());
                    t.append("}");
                },
            }
            assert(t@ =~= joined(parts.take(i as int)) + seq!['/'] + parts[i as int]);
            i += 1;
        }
        assert(parts.take(i as int) =~= parts);
        t
    }
}

/// The text of a pattern segment with a fitting name is a path segment.
pub proof fn lemma_segment_text_is_segment(seg: SegmentView)
    requires
        is_name(segment_name(seg)),
    ensures
        is_segment(segment_text(seg)),
{
    let name = segment_name(seg);
    let text = segment_text(seg);
    assert forall|i: int| 0 <= i < text.len() implies text[i] != '/' by {
        match seg {
            SegmentView::Literal(_) => {
                assert(text[i] == name[i]);
            },
            SegmentView::Param(_) => {
                if 0 < i < text.len() - 1 {
                    assert(text[i] == name[i - 1]);
                }
            },
        }
    }
}

/// Two pattern segments with fitting names and the same text are the same
/// segment.
pub proof fn lemma_segment_text_injective(a: SegmentView, b: SegmentView)
    requires
        is_name(segment_name(a)),
        is_name(segment_name(b)),
        segment_text(a) == segment_text(b),
    ensures
        a == b,
{
    let text = segment_text(a);
    match (a, b) {
        (SegmentView::Literal(_), SegmentView::Literal(_)) => {},
        (SegmentView::Param(n), SegmentView::Param(m)) => {
            assert(text.len() == n.len() + 2);
            assert(segment_text(b).len() == m.len() + 2);
            assert forall|k: int| 0 <= k < n.len() implies n[k] == m[k] by {
                assert(text[k + 1] == n[k]);
                assert(segment_text(b)[k + 1] == m[k]);
            }
            assert(n =~= m);
        },
        (SegmentView::Literal(x), SegmentView::Param(_)) => {
            assert(x[0] == segment_text(b)[0]);
        },
        (SegmentView::Param(_), SegmentView::Literal(y)) => {
            assert(y[0] == text[0]);
        },
    }
}

/// Two patterns with fitting names and the same text are the same pattern:
/// the text of a pattern says which pattern it is.
pub proof fn lemma_pattern_text_injective(p: Seq<SegmentView>, q: Seq<SegmentView>)
    requires
        valid_pattern(p),
        valid_pattern(q),
        pattern_text(p) == pattern_text(q),
    ensures
        p == q,
{
    let tp = p.map_values(|s: SegmentView| segment_text(s));
    let tq = q.map_values(|s: SegmentView| segment_text(s));
    assert forall|i: int| 0 <= i < tp.len() implies is_segment(#[trigger] tp[i]) by {
        lemma_segment_text_is_segment(p[i]);
    }
    assert forall|i: int| 0 <= i < tq.len() implies is_segment(#[trigger] tq[i]) by {
        lemma_segment_text_is_segment(q[i]);
    }
    lemma_split_unique(pattern_text(p), tp, tq);
    assert forall|i: int| 0 <= i < p.len() implies p[i] == q[i] by {
        assert(tp[i] == segment_text(p[i]));
        assert(tq[i] == segment_text(q[i]));
        lemma_segment_text_injective(p[i], q[i]);
    }
    assert(p =~= q);
}

} // verus!
