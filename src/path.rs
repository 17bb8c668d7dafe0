//! Normalisation of a raw segment stream into canonical path events.
use vstd::prelude::*;

verus! {

/// One command of a raw path, as a document decoder reports it.
#[derive(Clone, Copy, Debug, PartialEq)]
pub enum Segment<P> {
    MoveTo(P),
    LineTo(P),
    /// Two control points, then the end point.
    CurveTo(P, P, P),
    ClosePath,
}

/// One canonical drawing instruction.
#[derive(Clone, Copy, Debug, PartialEq)]
pub enum PathEvent<P> {
    Begin { at: P },
    Line { from: P, to: P },
    Cubic { from: P, ctrl1: P, ctrl2: P, to: P },
    End { last: P, first: P, close: bool },
}

/// What one segment `s` yields from the state (`prev`, `first`, `open`): its
/// events, then the new previous point, first point and open flag. `open` tells
/// whether a subpath has begun and still waits for its end.
pub open spec fn step<P>(s: Segment<P>, prev: P, first: P, open: bool) -> (Seq<PathEvent<P>>, P, P, bool) {
    match s {
        Segment::MoveTo(p) => (
            if open {
                seq![PathEvent::End { last: prev, first, close: false }, PathEvent::Begin { at: p }]
            } else {
                seq![PathEvent::Begin { at: p }]
            },
            p,
            p,
            true,
        ),
        Segment::LineTo(p) => (seq![PathEvent::Line { from: prev, to: p }], p, first, true),
        Segment::CurveTo(c1, c2, p) => (
            seq![PathEvent::Cubic { from: prev, ctrl1: c1, ctrl2: c2, to: p }],
            p,
            first,
            true,
        ),
        Segment::ClosePath => (seq![PathEvent::End { last: first, first, close: true }], first, first, false),
    }
}

/// The events that the segments `segs` produce from the state (`prev`, `first`,
/// `open`); a subpath still open when the stream ends gets a non-closing `End`.
pub open spec fn events_from<P>(segs: Seq<Segment<P>>, prev: P, first: P, open: bool) -> Seq<PathEvent<P>>
    decreases segs.len(),
{
    if segs.len() == 0 {
        if open {
            seq![PathEvent::End { last: prev, first, close: false }]
        } else {
            Seq::empty()
        }
    } else {
        let (head, p, f, o) = step(segs[0], prev, first, open);
        head + events_from(segs.drop_first(), p, f, o)
    }
}

/// The canonical events of a whole segment stream; `start` is the point that
/// stands for "previous" and "first" before any command has set them.
pub open spec fn normalized<P>(segs: Seq<Segment<P>>, start: P) -> Seq<PathEvent<P>> {
    events_from(segs, start, start, false)
}

/// A pull-based normaliser: each call of `next` yields the next canonical event.
///
/// A `MoveTo` that ends an open subpath yields two events; the second waits in a
/// single-slot buffer until the following call.
pub struct PathConvIter<P> {
    segments: Vec<Segment<P>>,
    pos: usize,
    prev: P,
    first: P,
    needs_end: bool,
    deferred: Option<PathEvent<P>>,
}

impl<P: Copy> PathConvIter<P> {
    /// The events that the iterator has yet to yield.
    pub closed spec fn pending(&self) -> Seq<PathEvent<P>> {
        let buffered = match self.deferred {
            Some(e) => seq![e],
            None => Seq::empty(),
        };
        buffered + events_from(
            self.segments@.skip(self.pos as int),
            self.prev,
            self.first,
            self.needs_end,
        )
    }

    pub closed spec fn wf(&self) -> bool {
        self.pos <= self.segments@.len()
    }

    /// Starts normalising `segments`; `start` is the initial previous and first point.
    pub fn new(segments: Vec<Segment<P>>, start: P) -> (r: Self)
        ensures
            r.wf(),
            r.pending() == normalized(segments@, start),
    {
        let r = PathConvIter { segments, pos: 0, prev: start, first: start, needs_end: false, deferred: None };
        assert(r.segments@.skip(0) == r.segments@);
        r
    }

    /// Yields the next canonical event, or `None` once the stream is exhausted.
    pub fn next(&mut self) -> (r: Option<PathEvent<P>>)
        requires
            old(self).wf(),
        ensures
            final(self).wf(),
            old(self).pending().len() == 0 ==> r is None && final(self).pending().len() == 0,
            old(self).pending().len() > 0 ==> r == Some(old(self).pending()[0])
                && final(self).pending() == old(self).pending().drop_first(),
    {
        if self.deferred.is_some() {
            let e = self.deferred;
            self.deferred = None;
            proof {
                assert(old(self).pending() == seq![e.unwrap()] + self.pending());
            }
            return e;
        }
        let ghost rest = self.segments@.skip(self.pos as int);
        assert(old(self).pending() == events_from(rest, self.prev, self.first, self.needs_end));
        if self.pos == self.segments.len() {
            if self.needs_end {
                self.needs_end = false;
                return Some(PathEvent::End { last: self.prev, first: self.first, close: false });
            }
            return None;
        }
        let seg = self.segments[self.pos];
        self.pos = self.pos + 1;
        assert(rest.drop_first() == self.segments@.skip(self.pos as int));
        match seg {
            Segment::MoveTo(p) => {
                if self.needs_end {
                    let last = self.prev;
                    let first = self.first;
                    self.prev = p;
                    self.first = p;
                    self.deferred = Some(PathEvent::Begin { at: p });
                    Some(PathEvent::End { last, first, close: false })
                } else {
                    self.needs_end = true;
                    self.prev = p;
                    self.first = p;
                    Some(PathEvent::Begin { at: p })
                }
            },
            Segment::LineTo(p) => {
                self.needs_end = true;
                let from = self.prev;
                self.prev = p;
                Some(PathEvent::Line { from, to: p })
            },
            Segment::CurveTo(c1, c2, p) => {
                self.needs_end = true;
                let from = self.prev;
                self.prev = p;
                Some(PathEvent::Cubic { from, ctrl1: c1, ctrl2: c2, to: p })
            },
            Segment::ClosePath => {
                self.needs_end = false;
                self.prev = self.first;
                Some(PathEvent::End { last: self.prev, first: self.first, close: true })
            },
        }
    }
}


/// Collects every canonical event of `segments`, in order.
pub fn normalize<P: Copy>(segments: Vec<Segment<P>>, start: P) -> (r: Vec<PathEvent<P>>)
    ensures
        r@ == normalized(segments@, start),
{
    let ghost target = normalized(segments@, start);
    let mut it = PathConvIter::new(segments, start);
    let mut out: Vec<PathEvent<P>> = Vec::new();
    loop
        invariant
            it.wf(),
            out@ + it.pending() == target,
            target == normalized(segments@, start),
        decreases it.pending().len(),
    {
        let ghost before = it.pending();
        match it.next() {
            Some(e) => {
                out.push(e);
                assert(out@ + it.pending() == target) by {
                    assert(before == seq![e] + it.pending());
                    assert(out@ + it.pending() =~= (out@.drop_last() + before));
                }
            },
            None => {
                assert(before.len() == 0);
                assert(out@ + before =~= out@);
                return out;
            },
        }
    }
}

/// Whether `e` is an `End` event whose close flag is `close`.
pub open spec fn is_end_with<P>(e: PathEvent<P>, close: bool) -> bool {
    match e {
        PathEvent::End { close: c, .. } => c == close,
        _ => false,
    }
}

/// How many `End` events of `evs` carry the close flag `close`.
pub open spec fn count_ends<P>(evs: Seq<PathEvent<P>>, close: bool) -> nat
    decreases evs.len(),
{
    if evs.len() == 0 {
        0
    } else {
        (if is_end_with(evs[0], close) { 1nat } else { 0nat }) + count_ends(evs.drop_first(), close)
    }
}

/// How many explicit close commands `segs` holds.
pub open spec fn count_closes<P>(segs: Seq<Segment<P>>) -> nat
    decreases segs.len(),
{
    if segs.len() == 0 {
        0
    } else {
        (if segs[0] is ClosePath { 1nat } else { 0nat }) + count_closes(segs.drop_first())
    }
}

/// Whether `s` draws (a line or a curve).
pub open spec fn draws<P>(s: Segment<P>) -> bool {
    s is LineTo || s is CurveTo
}


/// How many subpaths of `segs` are left open at their end: a command other
/// than a close that the stream's end or a `MoveTo` follows ends one of them.
pub open spec fn subpath_ends<P>(segs: Seq<Segment<P>>) -> nat
    decreases segs.len(),
{
    if segs.len() == 0 {
        0
    } else {
        (if !(segs[0] is ClosePath) && (segs.len() == 1 || segs[1] is MoveTo) { 1nat } else { 0nat })
            + subpath_ends(segs.drop_first())
    }
}

/// How many `MoveTo` commands `segs` holds.
pub open spec fn count_moves<P>(segs: Seq<Segment<P>>) -> nat
    decreases segs.len(),
{
    if segs.len() == 0 {
        0
    } else {
        (if segs[0] is MoveTo { 1nat } else { 0nat }) + count_moves(segs.drop_first())
    }
}

/// Every `End` event of `evs` is the last event or is followed by a `Begin`.
pub open spec fn ends_precede_begins<P>(evs: Seq<PathEvent<P>>) -> bool {
    forall|k: int|
        0 <= k < evs.len() && #[trigger] evs[k] is End ==> k + 1 == evs.len() || evs[k + 1] is Begin
}

/// A closing `End` joins its subpath's last point to its first: the two agree.
pub open spec fn closing_end_meets<P>(e: PathEvent<P>) -> bool {
    match e {
        PathEvent::End { last, first, close } => close ==> last == first,
        _ => true,
    }
}

/// Every closing `End` of `evs` has equal first and last points.
pub open spec fn closing_ends_meet<P>(evs: Seq<PathEvent<P>>) -> bool {
    forall|k: int| 0 <= k < evs.len() ==> closing_end_meets(#[trigger] evs[k])
}

proof fn lemma_count_ends_concat<P>(a: Seq<PathEvent<P>>, b: Seq<PathEvent<P>>, close: bool)
    ensures
        count_ends(a + b, close) == count_ends(a, close) + count_ends(b, close),
    decreases a.len(),
{
    if a.len() == 0 {
        assert(a + b =~= b);
    } else {
        assert((a + b).drop_first() =~= a.drop_first() + b);
        lemma_count_ends_concat(a.drop_first(), b, close);
    }
}

/// The facts about one segment's events that the laws below rest on.
proof fn lemma_step<P>(s: Segment<P>, prev: P, first: P, open: bool)
    ensures
        ({
            let (h, p, f, o) = step(s, prev, first, open);
            &&& h.len() > 0
            &&& o == !(s is ClosePath)
            &&& count_ends(h, true) == if s is ClosePath { 1nat } else { 0nat }
            &&& count_ends(h, false) == if open && s is MoveTo { 1nat } else { 0nat }
            &&& (!(s is ClosePath) ==> !(h.last() is End))
            &&& (forall|k: int| 0 <= k < h.len() - 1 && #[trigger] h[k] is End ==> h[k + 1] is Begin)
            &&& closing_ends_meet(h)
            &&& (draws(s) ==> f == first && h.len() == 1)
            &&& (s is ClosePath ==> h == seq![PathEvent::End { last: first, first, close: true }])
        }),
{
    let (h, p, f, o) = step(s, prev, first, open);
    if h.len() == 2 {
        let t = h.drop_first();
        assert(t.len() == 1);
        assert(t.drop_first().len() == 0);
        assert(count_ends(t.drop_first(), true) == 0);
        assert(count_ends(t.drop_first(), false) == 0);
        assert(t[0] == h[1]);
        assert(h.last() == h[1]);
        assert(forall|c: bool| count_ends(t, c) == (if is_end_with(t[0], c) { 1nat } else { 0nat }) + count_ends(t.drop_first(), c));
        assert(forall|c: bool| count_ends(h, c) == (if is_end_with(h[0], c) { 1nat } else { 0nat }) + count_ends(t, c));
    } else {
        assert(h.len() == 1);
        assert(h.drop_first().len() == 0);
        assert(count_ends(h.drop_first(), true) == 0);
        assert(count_ends(h.drop_first(), false) == 0);
        assert(h.last() == h[0]);
        assert(forall|c: bool| count_ends(h, c) == (if is_end_with(h[0], c) { 1nat } else { 0nat }) + count_ends(h.drop_first(), c));
    }
    match s {
        Segment::MoveTo(q) => {
            if open {
                assert(h[0] == PathEvent::End { last: prev, first, close: false });
                assert(h[1] == PathEvent::Begin { at: q });
            } else {
                assert(h[0] == PathEvent::Begin { at: q });
            }
        },
        _ => {},
    }
    assert(closing_ends_meet(h)) by {
        assert forall|k: int| 0 <= k < h.len() implies closing_end_meets(#[trigger] h[k]) by {}
    }
    assert(o == !(s is ClosePath));
    assert(count_ends(h, true) == if s is ClosePath { 1nat } else { 0nat });
    assert(count_ends(h, false) == if open && s is MoveTo { 1nat } else { 0nat });
    assert(!(s is ClosePath) ==> !(h.last() is End));
    assert(forall|k: int| 0 <= k < h.len() - 1 && #[trigger] h[k] is End ==> h[k + 1] is Begin);
    assert(draws(s) ==> f == first && h.len() == 1);
    assert(s is ClosePath ==> h == seq![PathEvent::End { last: first, first, close: true }]);
}

proof fn lemma_open_ends<P>(segs: Seq<Segment<P>>, prev: P, first: P, open: bool)
    requires
        count_closes(segs) == 0,
    ensures
        count_ends(events_from(segs, prev, first, open), true) == 0,
        count_ends(events_from(segs, prev, first, open), false) == subpath_ends(segs) + (if open
            && (segs.len() == 0 || segs[0] is MoveTo) { 1nat } else { 0nat }),
        ends_precede_begins(events_from(segs, prev, first, open)),
    decreases segs.len(),
{
    let evs = events_from(segs, prev, first, open);
    if segs.len() == 0 {
        if open {
            assert(evs.drop_first().len() == 0);
            assert(count_ends(evs.drop_first(), true) == 0);
            assert(count_ends(evs.drop_first(), false) == 0);
        }
    } else {
        let rest = segs.drop_first();
        assert(rest.len() > 0 ==> rest[0] == segs[1]);
        assert(!(segs[0] is ClosePath));
        assert(count_closes(rest) == 0);
        let (head, p, f, o) = step(segs[0], prev, first, open);
        lemma_step(segs[0], prev, first, open);
        lemma_open_ends(rest, p, f, o);
        let tail = events_from(rest, p, f, o);
        assert(evs == head + tail);
        lemma_count_ends_concat(head, tail, true);
        lemma_count_ends_concat(head, tail, false);
        assert forall|k: int| 0 <= k < evs.len() && #[trigger] evs[k] is End implies k + 1
            == evs.len() || evs[k + 1] is Begin by {
            if k >= head.len() {
                assert(evs[k] == tail[k - head.len()]);
                if k + 1 < evs.len() {
                    assert(evs[k + 1] == tail[k + 1 - head.len()]);
                }
            } else {
                assert(evs[k] == head[k]);
                if k == head.len() - 1 {
                    assert(head[k] == head.last());
                } else {
                    assert(evs[k + 1] == head[k + 1]);
                }
            }
        }
    }
}

/// A path with no explicit close yields no closing `End` at all, and exactly one
/// non-closing `End` for each subpath; each such `End` stands at the stream's
/// end or right before the next subpath's `Begin`.
pub proof fn lemma_unclosed_path_ends<P>(segs: Seq<Segment<P>>, start: P)
    requires
        count_closes(segs) == 0,
    ensures
        count_ends(normalized(segs, start), true) == 0,
        count_ends(normalized(segs, start), false) == subpath_ends(segs),
        ends_precede_begins(normalized(segs, start)),
{
    lemma_open_ends(segs, start, start, false);
}

proof fn lemma_subpath_ends_are_moves<P>(segs: Seq<Segment<P>>)
    requires
        segs.len() > 0,
        count_closes(segs) == 0,
    ensures
        subpath_ends(segs) == count_moves(segs) + if segs[0] is MoveTo { 0nat } else { 1nat },
    decreases segs.len(),
{
    let rest = segs.drop_first();
    assert(!(segs[0] is ClosePath));
    assert(count_closes(rest) == 0);
    if rest.len() > 0 {
        assert(rest[0] == segs[1]);
        lemma_subpath_ends_are_moves(rest);
    } else {
        assert(subpath_ends(rest) == 0);
        assert(count_moves(rest) == 0);
    }
}

/// A path that starts with a `MoveTo` and never closes explicitly yields exactly
/// one `End` per `MoveTo`, single-point subpaths included; none of them closes,
/// and each stands at the stream's end or right before the next `Begin`.
pub proof fn lemma_one_end_per_subpath<P>(segs: Seq<Segment<P>>, start: P)
    requires
        segs.len() > 0,
        segs[0] is MoveTo,
        count_closes(segs) == 0,
    ensures
        count_ends(normalized(segs, start), false) == count_moves(segs),
        count_ends(normalized(segs, start), true) == 0,
        ends_precede_begins(normalized(segs, start)),
{
    lemma_open_ends(segs, start, start, false);
    lemma_subpath_ends_are_moves(segs);
}

proof fn lemma_close_ends<P>(segs: Seq<Segment<P>>, prev: P, first: P, open: bool)
    ensures
        count_ends(events_from(segs, prev, first, open), true) == count_closes(segs),
        closing_ends_meet(events_from(segs, prev, first, open)),
        segs.len() > 0 && segs.last() is ClosePath ==> events_from(segs, prev, first, open).len()
            > 0 && is_end_with(events_from(segs, prev, first, open).last(), true),
    decreases segs.len(),
{
    let evs = events_from(segs, prev, first, open);
    if segs.len() == 0 {
        if open {
            assert(evs.drop_first().len() == 0);
            assert(count_ends(evs.drop_first(), true) == 0);
        }
        assert forall|k: int| 0 <= k < evs.len() implies closing_end_meets(#[trigger] evs[k]) by {}
    } else {
        let rest = segs.drop_first();
        let (head, p, f, o) = step(segs[0], prev, first, open);
        lemma_step(segs[0], prev, first, open);
        lemma_close_ends(rest, p, f, o);
        let tail = events_from(rest, p, f, o);
        assert(evs == head + tail);
        lemma_count_ends_concat(head, tail, true);
        assert forall|k: int| 0 <= k < evs.len() implies closing_end_meets(#[trigger] evs[k]) by {
            if k >= head.len() {
                assert(evs[k] == tail[k - head.len()]);
            } else {
                assert(evs[k] == head[k]);
            }
        }
        if segs.last() is ClosePath {
            if rest.len() > 0 {
                assert(rest.last() == segs.last());
                assert(evs.last() == tail.last());
            } else {
                assert(segs[0] is ClosePath);
                assert(tail.len() == 0);
                assert(evs =~= head);
            }
        }
    }
}

/// For every path whose last command is an explicit close, the last event is a
/// closing `End`; there is one closing `End` per close command, and every
/// closing `End` has equal first and last points.
pub proof fn lemma_path_ending_in_close<P>(segs: Seq<Segment<P>>, start: P)
    requires
        segs.len() > 0,
        segs.last() is ClosePath,
    ensures
        normalized(segs, start).len() > 0,
        is_end_with(normalized(segs, start).last(), true),
        count_ends(normalized(segs, start), true) == count_closes(segs),
        closing_ends_meet(normalized(segs, start)),
{
    lemma_close_ends(segs, start, start, false);
}

/// Whether `b` is a suffix of `a`.
pub open spec fn ends_with<X>(a: Seq<X>, b: Seq<X>) -> bool {
    b.len() <= a.len() && a.subrange(a.len() - b.len(), a.len() as int) == b
}

/// The events of a final subpath after its `Begin`: those of the drawing
/// commands `body` that follow its `MoveTo(q)`, then of the close.
pub open spec fn final_subpath_events<P>(q: P, body: Seq<Segment<P>>) -> Seq<PathEvent<P>> {
    events_from(body.push(Segment::ClosePath), q, q, true)
}

proof fn lemma_drawing_then_close<P>(body: Seq<Segment<P>>, prev: P, first: P, open: bool)
    requires
        forall|i: int| 0 <= i < body.len() ==> draws(#[trigger] body[i]),
    ensures
        events_from(body.push(Segment::ClosePath), prev, first, open).len() > 0,
        events_from(body.push(Segment::ClosePath), prev, first, open).last() == (PathEvent::End {
            last: first,
            first,
            close: true,
        }),
        count_ends(events_from(body.push(Segment::ClosePath), prev, first, open), true) == 1,
        count_ends(events_from(body.push(Segment::ClosePath), prev, first, open), false) == 0,
    decreases body.len(),
{
    let segs = body.push(Segment::ClosePath);
    let evs = events_from(segs, prev, first, open);
    let (head, p, f, o) = step(segs[0], prev, first, open);
    lemma_step(segs[0], prev, first, open);
    let rest = segs.drop_first();
    let tail = events_from(rest, p, f, o);
    assert(evs == head + tail);
    lemma_count_ends_concat(head, tail, true);
    lemma_count_ends_concat(head, tail, false);
    if body.len() == 0 {
        assert(segs[0] == Segment::<P>::ClosePath);
        assert(rest.len() == 0);
        assert(tail == Seq::<PathEvent<P>>::empty());
        assert(evs =~= head);
        assert(count_ends(tail, true) == 0);
        assert(count_ends(tail, false) == 0);
    } else {
        assert(segs[0] == body[0]);
        let brest = body.drop_first();
        assert(rest == brest.push(Segment::ClosePath));
        assert forall|i: int| 0 <= i < brest.len() implies draws(#[trigger] brest[i]) by {
            assert(brest[i] == body[i + 1]);
        }
        assert(draws(body[0]));
        lemma_drawing_then_close(brest, p, f, o);
        assert(evs.last() == tail.last());
    }
}

proof fn lemma_final_subpath<P>(
    pre: Seq<Segment<P>>,
    q: P,
    body: Seq<Segment<P>>,
    prev: P,
    first: P,
    open: bool,
)
    ensures
        ends_with(
            events_from(pre + seq![Segment::MoveTo(q)] + body.push(Segment::ClosePath), prev, first, open),
            final_subpath_events(q, body),
        ),
    decreases pre.len(),
{
    let tail = seq![Segment::MoveTo(q)] + body.push(Segment::ClosePath);
    let t = final_subpath_events(q, body);
    assert(pre + seq![Segment::MoveTo(q)] + body.push(Segment::ClosePath) == pre + tail);
    let all = pre + tail;
    let evs = events_from(all, prev, first, open);
    let (head, p, f, o) = step(all[0], prev, first, open);
    let e = events_from(all.drop_first(), p, f, o);
    assert(evs == head + e);
    if pre.len() == 0 {
        assert(all == tail);
        assert(all[0] == Segment::MoveTo(q));
        assert(all.drop_first() == body.push(Segment::ClosePath));
        assert(p == q && f == q && o);
        assert(e == t);
        assert(t.subrange(t.len() - t.len(), t.len() as int) =~= t);
    } else {
        let rest = pre.drop_first();
        assert(all[0] == pre[0]);
        assert(all.drop_first() == rest + tail);
        assert(rest + seq![Segment::MoveTo(q)] + body.push(Segment::ClosePath) == rest + tail);
        lemma_final_subpath(rest, q, body, p, f, o);
        assert(e == events_from(rest + seq![Segment::MoveTo(q)] + body.push(Segment::ClosePath), p, f, o));
    }
    assert(ends_with(e, t));
    assert(t.len() <= e.len());
    assert(evs.subrange(evs.len() - t.len(), evs.len() as int) =~= e.subrange(
        e.len() - t.len(),
        e.len() as int,
    ));
    assert(evs == events_from(pre + seq![Segment::MoveTo(q)] + body.push(Segment::ClosePath), prev, first, open));
}

/// A path that ends with a subpath `MoveTo(q)`, drawing commands, close: the
/// events of that final subpath end the whole event sequence; among them is
/// exactly one `End`, it closes, it comes last, and both its points are `q`.
pub proof fn lemma_closed_final_subpath<P>(pre: Seq<Segment<P>>, q: P, body: Seq<Segment<P>>, start: P)
    requires
        forall|i: int| 0 <= i < body.len() ==> draws(#[trigger] body[i]),
    ensures
        ends_with(
            normalized(pre + seq![Segment::MoveTo(q)] + body.push(Segment::ClosePath), start),
            final_subpath_events(q, body),
        ),
        count_ends(final_subpath_events(q, body), true) == 1,
        count_ends(final_subpath_events(q, body), false) == 0,
        final_subpath_events(q, body).len() > 0,
        final_subpath_events(q, body).last() == (PathEvent::End { last: q, first: q, close: true }),
{
    lemma_final_subpath(pre, q, body, start, start, false);
    lemma_drawing_then_close(body, q, q, true);
}

/// `s` with each of its points mapped by `f`.
pub open spec fn map_segment<P>(f: spec_fn(P) -> P, s: Segment<P>) -> Segment<P> {
    match s {
        Segment::MoveTo(p) => Segment::MoveTo(f(p)),
        Segment::LineTo(p) => Segment::LineTo(f(p)),
        Segment::CurveTo(c1, c2, p) => Segment::CurveTo(f(c1), f(c2), f(p)),
        Segment::ClosePath => Segment::ClosePath,
    }
}

/// `e` with each of its points mapped by `f`.
pub open spec fn map_event<P>(f: spec_fn(P) -> P, e: PathEvent<P>) -> PathEvent<P> {
    match e {
        PathEvent::Begin { at } => PathEvent::Begin { at: f(at) },
        PathEvent::Line { from, to } => PathEvent::Line { from: f(from), to: f(to) },
        PathEvent::Cubic { from, ctrl1, ctrl2, to } => PathEvent::Cubic {
            from: f(from),
            ctrl1: f(ctrl1),
            ctrl2: f(ctrl2),
            to: f(to),
        },
        PathEvent::End { last, first, close } => PathEvent::End { last: f(last), first: f(first), close },
    }
}

proof fn lemma_map_events<P>(f: spec_fn(P) -> P, segs: Seq<Segment<P>>, prev: P, first: P, open: bool)
    ensures
        events_from(segs.map_values(|s: Segment<P>| map_segment(f, s)), f(prev), f(first), open)
            == events_from(segs, prev, first, open).map_values(|e: PathEvent<P>| map_event(f, e)),
    decreases segs.len(),
{
    let ms = segs.map_values(|s: Segment<P>| map_segment(f, s));
    let evs = events_from(segs, prev, first, open);
    if segs.len() == 0 {
        assert(evs.map_values(|e: PathEvent<P>| map_event(f, e)) =~= events_from(ms, f(prev), f(first), open));
    } else {
        let (h, p, fi, o) = step(segs[0], prev, first, open);
        let (mh, mp, mfi, mo) = step(ms[0], f(prev), f(first), open);
        assert(ms[0] == map_segment(f, segs[0]));
        assert(mh =~= h.map_values(|e: PathEvent<P>| map_event(f, e)));
        assert(mp == f(p) && mfi == f(fi) && mo == o);
        assert(ms.drop_first() =~= segs.drop_first().map_values(|s: Segment<P>| map_segment(f, s)));
        lemma_map_events(f, segs.drop_first(), p, fi, o);
        let t = events_from(segs.drop_first(), p, fi, o);
        assert(evs == h + t);
        assert((h + t).map_values(|e: PathEvent<P>| map_event(f, e)) =~= h.map_values(
            |e: PathEvent<P>| map_event(f, e),
        ) + t.map_values(|e: PathEvent<P>| map_event(f, e)));
    }
}

/// Mapping every point before normalising gives what normalising and then
/// mapping every event gives: a per-axis sign correction may be applied to the
/// segments instead of to the events.
pub proof fn lemma_map_commutes<P>(f: spec_fn(P) -> P, segs: Seq<Segment<P>>, start: P)
    ensures
        normalized(segs.map_values(|s: Segment<P>| map_segment(f, s)), f(start)) == normalized(
            segs,
            start,
        ).map_values(|e: PathEvent<P>| map_event(f, e)),
{
    lemma_map_events(f, segs, start, start, false);
}

} // verus!
