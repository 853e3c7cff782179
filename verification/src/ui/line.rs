use vstd::prelude::*;

use crate::ui::segment::{Attributes, Color, Segment, SegmentView, same_style};

verus! {

/// One character of a line together with the color and attributes it is shown with.
pub type StyledChar = (char, Option<Color>, Attributes);

/// The characters of a segment, each with the segment's style.
pub open spec fn styled_run(seg: SegmentView) -> Seq<StyledChar> {
    seg.text.map_values(|c: char| (c, seg.color, seg.attributes))
}

/// The characters of a sequence of segments, each with its style: what a reader sees.
pub open spec fn styled_chars(s: Seq<SegmentView>) -> Seq<StyledChar>
    decreases s.len(),
{
    if s.len() == 0 {
        Seq::empty()
    } else {
        styled_chars(s.drop_last()) + styled_run(s.last())
    }
}

/// The views of a sequence of segments.
pub open spec fn views_of(s: Seq<Segment>) -> Seq<SegmentView> {
    s.map_values(|seg: Segment| seg@)
}

/// No segment is empty and no two neighbouring segments share a style: the one way of
/// writing a given sequence of styled characters.
pub open spec fn is_canonical(s: Seq<SegmentView>) -> bool {
    &&& forall|i: int| 0 <= i < s.len() ==> (#[trigger] s[i]).text.len() > 0
    &&& forall|i: int, j: int|
        0 <= i && j == i + 1 && j < s.len() ==> !same_style(#[trigger] s[i], #[trigger] s[j])
}

/// `acc` with `seg` added at the end: an empty segment is dropped, and a segment in the style
/// of the last one is merged into it.
pub open spec fn append_segment(acc: Seq<SegmentView>, seg: SegmentView) -> Seq<SegmentView> {
    if seg.text.len() == 0 {
        acc
    } else if acc.len() > 0 && same_style(acc.last(), seg) {
        acc.drop_last().push(SegmentView { text: acc.last().text + seg.text, ..seg })
    } else {
        acc.push(seg)
    }
}

/// The canonical form of a sequence of segments, built from the left.
pub open spec fn normalize(s: Seq<SegmentView>) -> Seq<SegmentView>
    decreases s.len(),
{
    if s.len() == 0 {
        Seq::empty()
    } else {
        append_segment(normalize(s.drop_last()), s.last())
    }
}

/// The segments of several lines, one line after the other.
pub open spec fn concat_all(lines: Seq<Seq<SegmentView>>) -> Seq<SegmentView>
    decreases lines.len(),
{
    if lines.len() == 0 {
        Seq::empty()
    } else {
        concat_all(lines.drop_last()) + lines.last()
    }
}

/// The styled characters of several lines, one line after the other.
pub open spec fn styled_all(lines: Seq<Seq<SegmentView>>) -> Seq<StyledChar>
    decreases lines.len(),
{
    if lines.len() == 0 {
        Seq::empty()
    } else {
        styled_all(lines.drop_last()) + styled_chars(lines.last())
    }
}

proof fn lemma_run(seg: SegmentView)
    ensures
        styled_run(seg).len() == seg.text.len(),
        forall|k: int|
            0 <= k < seg.text.len() ==> #[trigger] styled_run(seg)[k] == (
                seg.text[k],
                seg.color,
                seg.attributes,
            ),
{
}

proof fn lemma_styled_push(acc: Seq<SegmentView>, seg: SegmentView)
    ensures
        styled_chars(acc.push(seg)) == styled_chars(acc) + styled_run(seg),
{
    assert(acc.push(seg).drop_last() =~= acc);
}

/// The styled characters of two sequences of segments, one after the other.
pub proof fn law_styled_concat(a: Seq<SegmentView>, b: Seq<SegmentView>)
    ensures
        styled_chars(a + b) == styled_chars(a) + styled_chars(b),
    decreases b.len(),
{
    if b.len() == 0 {
        assert(a + b =~= a);
        assert(styled_chars(a) + styled_chars(b) =~= styled_chars(a));
    } else {
        law_styled_concat(a, b.drop_last());
        assert((a + b).drop_last() =~= a + b.drop_last());
        assert(styled_chars(a + b) =~= styled_chars(a) + styled_chars(b));
    }
}

proof fn lemma_canonical_prefix(s: Seq<SegmentView>)
    requires
        is_canonical(s),
        s.len() > 0,
    ensures
        is_canonical(s.drop_last()),
{
    let t = s.drop_last();
    assert forall|i: int, j: int| 0 <= i && j == i + 1 && j < t.len() implies !same_style(
        #[trigger] t[i],
        #[trigger] t[j],
    ) by {
        assert(t[i] == s[i] && t[j] == s[j]);
    }
}

/// Adding a segment keeps a canonical sequence canonical and adds the segment's characters.
proof fn lemma_append_segment(acc: Seq<SegmentView>, seg: SegmentView)
    requires
        is_canonical(acc),
    ensures
        is_canonical(append_segment(acc, seg)),
        styled_chars(append_segment(acc, seg)) == styled_chars(acc) + styled_run(seg),
{
    let r = append_segment(acc, seg);
    lemma_run(seg);
    if seg.text.len() == 0 {
        assert(styled_run(seg) =~= Seq::<StyledChar>::empty());
        assert(styled_chars(acc) + styled_run(seg) =~= styled_chars(acc));
    } else if acc.len() > 0 && same_style(acc.last(), seg) {
        let front = acc.drop_last();
        let merged = SegmentView { text: acc.last().text + seg.text, ..seg };
        lemma_styled_push(front, merged);
        lemma_styled_push(front, acc.last());
        lemma_run(merged);
        lemma_run(acc.last());
        assert(front.push(acc.last()) =~= acc);
        assert(styled_run(merged) =~= styled_run(acc.last()) + styled_run(seg));
        assert(styled_chars(r) =~= styled_chars(acc) + styled_run(seg));
        assert forall|i: int, j: int| 0 <= i && j == i + 1 && j < r.len() implies !same_style(
            #[trigger] r[i],
            #[trigger] r[j],
        ) by {
            if j == r.len() - 1 {
                assert(acc[i] == r[i]);
                assert(!same_style(acc[i], acc[j]));
            } else {
                assert(acc[i] == r[i] && acc[j] == r[j]);
            }
        }
        assert forall|i: int| 0 <= i < r.len() implies (#[trigger] r[i]).text.len() > 0 by {
            if i < r.len() - 1 {
                assert(acc[i] == r[i]);
            }
        }
    } else {
        lemma_styled_push(acc, seg);
        assert forall|i: int, j: int| 0 <= i && j == i + 1 && j < r.len() implies !same_style(
            #[trigger] r[i],
            #[trigger] r[j],
        ) by {
            if j == r.len() - 1 {
                assert(acc[i] == r[i]);
            } else {
                assert(acc[i] == r[i] && acc[j] == r[j]);
            }
        }
        assert forall|i: int| 0 <= i < r.len() implies (#[trigger] r[i]).text.len() > 0 by {
            if i < r.len() - 1 {
                assert(acc[i] == r[i]);
            }
        }
    }
}

/// Normalizing gives a canonical sequence with the same styled characters.
pub proof fn law_normalize(s: Seq<SegmentView>)
    ensures
        is_canonical(normalize(s)),
        styled_chars(normalize(s)) == styled_chars(s),
    decreases s.len(),
{
    if s.len() > 0 {
        law_normalize(s.drop_last());
        lemma_append_segment(normalize(s.drop_last()), s.last());
    }
}

/// A canonical sequence is its own normal form.
pub proof fn law_normalize_canonical(s: Seq<SegmentView>)
    requires
        is_canonical(s),
    ensures
        normalize(s) == s,
    decreases s.len(),
{
    if s.len() > 0 {
        lemma_canonical_prefix(s);
        law_normalize_canonical(s.drop_last());
        let t = s.drop_last();
        if t.len() > 0 {
            assert(!same_style(s[t.len() - 1], s[t.len() as int]));
        }
        assert(s.last() == s[s.len() - 1]);
        assert(t.push(s.last()) =~= s);
    }
}

/// A sequence whose last segment is not empty ends with a character in that segment's style.
proof fn lemma_last_char(s: Seq<SegmentView>)
    requires
        s.len() > 0,
        s.last().text.len() > 0,
    ensures
        styled_chars(s).len() > 0,
        styled_chars(s).last().1 == s.last().color,
        styled_chars(s).last().2 == s.last().attributes,
        styled_chars(s).len() == styled_chars(s.drop_last()).len() + s.last().text.len(),
{
    let run = styled_run(s.last());
    lemma_run(s.last());
    assert(styled_chars(s).last() == run[run.len() - 1]);
}

proof fn lemma_empty_styled(s: Seq<SegmentView>)
    requires
        is_canonical(s),
        styled_chars(s).len() == 0,
    ensures
        s.len() == 0,
{
    if s.len() > 0 {
        assert(s[s.len() - 1].text.len() > 0);
        lemma_last_char(s);
    }
}

/// Two canonical sequences with the same styled characters are the same: a line is determined
/// by what a reader sees.
pub proof fn law_canonical_unique(a: Seq<SegmentView>, b: Seq<SegmentView>)
    requires
        is_canonical(a),
        is_canonical(b),
        styled_chars(a) == styled_chars(b),
    ensures
        a == b,
    decreases a.len() + b.len(),
{
    if a.len() == 0 {
        lemma_empty_styled(b);
        assert(a =~= b);
    } else if b.len() == 0 {
        lemma_empty_styled(a);
    } else {
        let la = a.last();
        let lb = b.last();
        let a2 = a.drop_last();
        let b2 = b.drop_last();
        assert(a[a.len() - 1].text.len() > 0);
        assert(b[b.len() - 1].text.len() > 0);
        lemma_last_char(a);
        lemma_last_char(b);
        lemma_run(la);
        lemma_run(lb);
        lemma_canonical_prefix(a);
        lemma_canonical_prefix(b);
        let sa = styled_chars(a);
        let na: int = styled_chars(a2).len() as int;
        let nb: int = styled_chars(b2).len() as int;
        assert(same_style(la, lb));
        if la.text.len() == lb.text.len() {
            assert(styled_chars(a2) =~= sa.subrange(0, na));
            assert(styled_chars(b2) =~= sa.subrange(0, nb));
            assert(la.text =~= lb.text) by {
                assert forall|k: int| 0 <= k < la.text.len() implies la.text[k] == lb.text[k] by {
                    assert(styled_run(la)[k] == sa[na + k]);
                    assert(styled_run(lb)[k] == sa[nb + k]);
                }
            }
            law_canonical_unique(a2, b2);
            assert(a =~= b) by {
                assert(a2.push(la) =~= a);
                assert(b2.push(lb) =~= b);
            }
        } else if la.text.len() < lb.text.len() {
            assert(a2.len() > 0) by {
                if a2.len() == 0 {
                    assert(na == 0);
                }
            }
            assert(a2[a2.len() - 1] == a[a.len() - 2]);
            assert(a2.last().text.len() > 0);
            lemma_last_char(a2);
            let k = na - 1;
            assert(sa[k] == styled_chars(a2).last());
            assert(sa[k] == styled_run(lb)[k - nb]);
            assert(same_style(a[a.len() - 2], a[a.len() - 1]));
        } else {
            assert(b2.len() > 0) by {
                if b2.len() == 0 {
                    assert(nb == 0);
                }
            }
            assert(b2[b2.len() - 1] == b[b.len() - 2]);
            assert(b2.last().text.len() > 0);
            lemma_last_char(b2);
            let k = nb - 1;
            assert(sa[k] == styled_chars(b2).last());
            assert(sa[k] == styled_run(la)[k - na]);
            assert(same_style(b[b.len() - 2], b[b.len() - 1]));
        }
    }
}

/// Two sequences of segments that show the same styled characters have the same normal form.
pub proof fn law_normalize_styled(a: Seq<SegmentView>, b: Seq<SegmentView>)
    requires
        styled_chars(a) == styled_chars(b),
    ensures
        normalize(a) == normalize(b),
{
    law_normalize(a);
    law_normalize(b);
    law_canonical_unique(normalize(a), normalize(b));
}

/// Joining the lines of two sequences of segments gives the line of the segments one after
/// the other.
pub proof fn law_join_two(a: Seq<SegmentView>, b: Seq<SegmentView>)
    ensures
        normalize(concat_all(seq![normalize(a), normalize(b)])) == normalize(a + b),
{
    let parts = seq![normalize(a), normalize(b)];
    let first = parts.drop_last();
    assert(first.drop_last() =~= Seq::<Seq<SegmentView>>::empty());
    assert(first.last() == normalize(a));
    assert(concat_all(first) == concat_all(first.drop_last()) + first.last());
    assert(concat_all(first) =~= normalize(a));
    assert(concat_all(parts) == normalize(a) + normalize(b));
    law_normalize(a);
    law_normalize(b);
    law_styled_concat(normalize(a), normalize(b));
    law_styled_concat(a, b);
    law_normalize_styled(normalize(a) + normalize(b), a + b);
}

/// Joining lines keeps every character with its style, one line after the other.
pub proof fn law_join_styled(lines: Seq<Seq<SegmentView>>)
    ensures
        styled_chars(normalize(concat_all(lines))) == styled_all(lines),
    decreases lines.len(),
{
    law_normalize(concat_all(lines));
    if lines.len() > 0 {
        law_join_styled(lines.drop_last());
        law_normalize(concat_all(lines.drop_last()));
        law_styled_concat(concat_all(lines.drop_last()), lines.last());
    }
}

/// A line of text: a canonical sequence of styled segments.
#[derive(Debug, PartialEq, Eq, Hash)]
pub struct Line {
    segments: Vec<Segment>,
}

impl View for Line {
    type V = Seq<SegmentView>;

    closed spec fn view(&self) -> Seq<SegmentView> {
        views_of(self.segments@)
    }
}

/// Adds `seg` to the end of the canonical `segs`, as `append_segment` says.
fn push_segment(segs: &mut Vec<Segment>, seg: Segment)
    requires
        is_canonical(views_of(old(segs)@)),
    ensures
        views_of(final(segs)@) == append_segment(views_of(old(segs)@), seg@),
        is_canonical(views_of(final(segs)@)),
{
    proof {
        lemma_append_segment(views_of(old(segs)@), seg@);
    }
    if seg.text.as_str().is_empty() {
        return ;
    }
    let n = segs.len();
    if n > 0 && segs[n - 1].has_style_of(&seg) {
        let last = segs.pop().unwrap();
        let merged = last.extended(seg.text.as_str());
        segs.push(merged);
        proof {
            assert(views_of(final(segs)@) =~= append_segment(views_of(old(segs)@), seg@));
        }
    } else {
        segs.push(seg);
        proof {
            assert(views_of(final(segs)@) =~= append_segment(views_of(old(segs)@), seg@));
        }
    }
}

impl Line {
    #[verifier::type_invariant]
    spec fn well_formed(&self) -> bool {
        is_canonical(views_of(self.segments@))
    }

    /// The line with no text.
    pub fn empty() -> (l: Line)
        ensures
            l@ == Seq::<SegmentView>::empty(),
    {
        let l = Line { segments: Vec::new() };
        proof {
            assert(l@ =~= Seq::<SegmentView>::empty());
        }
        l
    }

    /// The line made of `segments`, in canonical form.
    pub fn from_segments(segments: Vec<Segment>) -> (l: Line)
        ensures
            l@ == normalize(views_of(segments@)),
    {
        let mut segs: Vec<Segment> = Vec::new();
        let mut i: usize = 0;
        proof {
            assert(views_of(segments@).take(0) =~= Seq::<SegmentView>::empty());
            assert(views_of(segs@) =~= Seq::<SegmentView>::empty());
        }
        while i < segments.len()
            invariant
                0 <= i <= segments@.len(),
                views_of(segs@) == normalize(views_of(segments@).take(i as int)),
                is_canonical(views_of(segs@)),
            decreases segments@.len() - i,
        {
            let seg = segments[i].duplicate();
            push_segment(&mut segs, seg);
            proof {
                assert(views_of(segments@).take(i + 1).drop_last() =~= views_of(segments@).take(
                    i as int,
                ));
            }
            i = i + 1;
        }
        proof {
            assert(views_of(segments@).take(i as int) =~= views_of(segments@));
        }
        Line { segments: segs }
    }

    /// The lines one after the other, as one line in canonical form.
    pub fn join(lines: Vec<Line>) -> (l: Line)
        ensures
            l@ == normalize(concat_all(lines@.map_values(|x: Line| x@))),
    {
        let ghost all = lines@.map_values(|x: Line| x@);
        let mut segs: Vec<Segment> = Vec::new();
        let mut i: usize = 0;
        proof {
            assert(all.take(0) =~= Seq::<Seq<SegmentView>>::empty());
            assert(views_of(segs@) =~= Seq::<SegmentView>::empty());
        }
        while i < lines.len()
            invariant
                0 <= i <= lines@.len(),
                all == lines@.map_values(|x: Line| x@),
                views_of(segs@) == normalize(concat_all(all.take(i as int))),
                is_canonical(views_of(segs@)),
            decreases lines@.len() - i,
        {
            let line = &lines[i];
            let mut j: usize = 0;
            proof {
                assert(concat_all(all.take(i as int)) + line@.take(0) =~= concat_all(
                    all.take(i as int),
                ));
            }
            while j < line.segments.len()
                invariant
                    0 <= j <= line.segments@.len(),
                    line@ == views_of(line.segments@),
                    views_of(segs@) == normalize(concat_all(all.take(i as int)) + line@.take(j as int)),
                    is_canonical(views_of(segs@)),
                decreases line.segments@.len() - j,
            {
                let seg = line.segments[j].duplicate();
                push_segment(&mut segs, seg);
                proof {
                    let pre = concat_all(all.take(i as int));
                    assert((pre + line@.take(j + 1)).drop_last() =~= pre + line@.take(j as int));
                    assert((pre + line@.take(j + 1)).last() == line@[j as int]);
                }
                j = j + 1;
            }
            proof {
                assert(all.take(i + 1).drop_last() =~= all.take(i as int));
                assert(all.take(i + 1).last() == line@);
                assert(line@.take(j as int) =~= line@);
            }
            i = i + 1;
        }
        proof {
            assert(all.take(i as int) =~= all);
        }
        Line { segments: segs }
    }

    /// The segments of the line, in order.
    pub fn segments(&self) -> (r: &Vec<Segment>)
        ensures
            views_of(r@) == self@,
    {
        &self.segments
    }
}

} // verus!
