//! Vertex/index buffers and their merging into one mesh buffer.
use vstd::prelude::*;

verus! {

/// The largest vertex count whose indices all fit in a `u32`.
pub const MAX_VERTICES: u64 = 0xffff_ffff;

/// What a buffer holds: its vertices, and the indices that group them into
/// triangles.
pub struct BufferModel<V> {
    pub vertices: Seq<V>,
    pub indices: Seq<u32>,
}

/// Vertices, and indices into them that form a triangle list.
#[derive(Clone, Debug)]
pub struct VertexBuffers<V> {
    pub vertices: Vec<V>,
    pub indices: Vec<u32>,
}

impl<V> View for VertexBuffers<V> {
    type V = BufferModel<V>;

    open spec fn view(&self) -> BufferModel<V> {
        BufferModel { vertices: self.vertices@, indices: self.indices@ }
    }
}

impl<V> BufferModel<V> {
    /// Whole triangles only, and every index names a vertex that exists.
    pub open spec fn wf(self) -> bool {
        &&& self.indices.len() % 3 == 0
        &&& forall|i: int| 0 <= i < self.indices.len() ==> #[trigger] self.indices[i] < self.vertices.len()
    }
}

/// `indices`, each moved up by `offset`.
pub open spec fn shifted(indices: Seq<u32>, offset: int) -> Seq<u32> {
    Seq::new(indices.len(), |i: int| (indices[i] + offset) as u32)
}

/// `b` placed after `a`: its vertices follow those of `a`, and its indices are
/// moved up by the vertex count of `a`.
pub open spec fn append<V>(a: BufferModel<V>, b: BufferModel<V>) -> BufferModel<V> {
    BufferModel {
        vertices: a.vertices + b.vertices,
        indices: a.indices + shifted(b.indices, a.vertices.len() as int),
    }
}

/// The buffer holding nothing.
pub open spec fn empty_model<V>() -> BufferModel<V> {
    BufferModel { vertices: Seq::empty(), indices: Seq::empty() }
}

/// All of `bufs` merged, in order.
pub open spec fn merged<V>(bufs: Seq<BufferModel<V>>) -> BufferModel<V>
    decreases bufs.len(),
{
    if bufs.len() == 0 {
        empty_model()
    } else {
        append(merged(bufs.drop_last()), bufs.last())
    }
}

/// How many vertices `bufs` hold together.
pub open spec fn total_vertices<V>(bufs: Seq<BufferModel<V>>) -> nat
    decreases bufs.len(),
{
    if bufs.len() == 0 {
        0
    } else {
        total_vertices(bufs.drop_last()) + bufs.last().vertices.len()
    }
}

/// Every buffer of `bufs` is well formed.
pub open spec fn all_wf<V>(bufs: Seq<BufferModel<V>>) -> bool {
    forall|i: int| 0 <= i < bufs.len() ==> (#[trigger] bufs[i]).wf()
}

/// What a list of buffers holds.
pub open spec fn models<V>(bufs: Seq<VertexBuffers<V>>) -> Seq<BufferModel<V>> {
    bufs.map_values(|b: VertexBuffers<V>| b@)
}

impl<V: Copy> VertexBuffers<V> {
    /// An empty buffer.
    pub fn new() -> (r: Self)
        ensures
            r@ == empty_model::<V>(),
    {
        VertexBuffers { vertices: Vec::new(), indices: Vec::new() }
    }

    fn push_buffer(&mut self, item: &VertexBuffers<V>)
        requires
            old(self)@.vertices.len() + item@.vertices.len() <= MAX_VERTICES,
            item@.wf(),
        ensures
            final(self)@ == append(old(self)@, item@),
    {
        let offset = self.vertices.len() as u32;
        let ghost base = self@;
        let mut i: usize = 0;
        while i < item.vertices.len()
            invariant
                i <= item.vertices@.len(),
                self.vertices@ == base.vertices + item.vertices@.subrange(0, i as int),
                self.indices@ == base.indices,
            decreases item.vertices@.len() - i,
        {
            self.vertices.push(item.vertices[i]);
            i = i + 1;
            assert(item.vertices@.subrange(0, i as int) == item.vertices@.subrange(0, i - 1).push(item.vertices@[i - 1]));
        }
        assert(item.vertices@.subrange(0, i as int) == item.vertices@);
        let mut j: usize = 0;
        while j < item.indices.len()
            invariant
                j <= item.indices@.len(),
                offset as int == base.vertices.len(),
                offset + item@.vertices.len() <= MAX_VERTICES,
                item@.wf(),
                self.vertices@ == base.vertices + item.vertices@,
                self.indices@ == base.indices + shifted(item.indices@, offset as int).subrange(0, j as int),
            decreases item.indices@.len() - j,
        {
            let idx = item.indices[j];
            assert(idx < item@.vertices.len());
            self.indices.push(idx + offset);
            j = j + 1;
            assert(shifted(item.indices@, offset as int).subrange(0, j as int)
                == shifted(item.indices@, offset as int).subrange(0, j - 1).push((idx + offset) as u32));
        }
        assert(shifted(item.indices@, offset as int).subrange(0, j as int) == shifted(item.indices@, offset as int));
    }

    /// Appends `item`: its vertices follow the present ones, and its indices are
    /// moved up by the present vertex count.
    pub fn extend_one(&mut self, item: VertexBuffers<V>)
        requires
            old(self)@.vertices.len() + item@.vertices.len() <= MAX_VERTICES,
            item@.wf(),
        ensures
            final(self)@ == append(old(self)@, item@),
    {
        self.push_buffer(&item);
    }

    /// Appends every buffer of `bufs`, in order, each as `extend_one` would.
    pub fn extend(&mut self, bufs: Vec<VertexBuffers<V>>)
        requires
            old(self)@.vertices.len() + total_vertices(models(bufs@)) <= MAX_VERTICES,
            all_wf(models(bufs@)),
        ensures
            final(self)@ == merged(seq![old(self)@] + models(bufs@)),
    {
        let ghost start = self@;
        let ghost ms = models(bufs@);
        proof {
            lemma_merged_single(start);
        }
        let mut k: usize = 0;
        while k < bufs.len()
            invariant
                k <= bufs@.len(),
                ms == models(bufs@),
                all_wf(ms),
                start.vertices.len() + total_vertices(ms) <= MAX_VERTICES,
                self@ == merged(seq![start] + ms.subrange(0, k as int)),
                self@.vertices.len() == start.vertices.len() + total_vertices(ms.subrange(0, k as int)),
            decreases bufs@.len() - k,
        {
            let ghost prefix = ms.subrange(0, k as int);
            let ghost next = ms.subrange(0, k + 1);
            proof {
                assert(next.drop_last() == prefix);
                assert((seq![start] + next).drop_last() == seq![start] + prefix);
                lemma_total_prefix(ms, k + 1);
                assert(ms[k as int].wf());
            }
            self.push_buffer(&bufs[k]);
            k = k + 1;
        }
        assert(ms.subrange(0, k as int) == ms);
    }
}

proof fn lemma_total_prefix<V>(bufs: Seq<BufferModel<V>>, n: int)
    requires
        0 <= n <= bufs.len(),
    ensures
        total_vertices(bufs.subrange(0, n)) <= total_vertices(bufs),
    decreases bufs.len(),
{
    if n < bufs.len() {
        assert(bufs.drop_last().subrange(0, n) == bufs.subrange(0, n));
        lemma_total_prefix(bufs.drop_last(), n);
    } else {
        assert(bufs.subrange(0, n) == bufs);
    }
}

proof fn lemma_merged_single<V>(b: BufferModel<V>)
    ensures
        merged(seq![b]) == b,
{
    assert(seq![b].drop_last() == Seq::<BufferModel<V>>::empty());
    assert(merged(Seq::<BufferModel<V>>::empty()) == empty_model::<V>());
    assert(Seq::<V>::empty() + b.vertices =~= b.vertices);
    assert(Seq::<u32>::empty() + shifted(b.indices, 0) =~= b.indices);
}

/// Merging regroups freely and keeps order: merging `xs + ys` gives what merging
/// `xs` first, then merging that result with `ys`, gives.
pub proof fn lemma_merge_regroup<V>(xs: Seq<BufferModel<V>>, ys: Seq<BufferModel<V>>)
    ensures
        merged(xs + ys) == merged(seq![merged(xs)] + ys),
    decreases ys.len(),
{
    if ys.len() == 0 {
        assert(xs + ys == xs);
        assert(seq![merged(xs)] + ys == seq![merged(xs)]);
        lemma_merged_single(merged(xs));
    } else {
        assert((xs + ys).drop_last() == xs + ys.drop_last());
        assert((seq![merged(xs)] + ys).drop_last() == seq![merged(xs)] + ys.drop_last());
        lemma_merge_regroup(xs, ys.drop_last());
    }
}

proof fn lemma_merged_len<V>(bufs: Seq<BufferModel<V>>)
    ensures
        merged(bufs).vertices.len() == total_vertices(bufs),
    decreases bufs.len(),
{
    if bufs.len() > 0 {
        lemma_merged_len(bufs.drop_last());
    }
}

proof fn lemma_append_assoc<V>(a: BufferModel<V>, b: BufferModel<V>, c: BufferModel<V>)
    requires
        c.wf(),
        a.vertices.len() + b.vertices.len() + c.vertices.len() <= MAX_VERTICES,
    ensures
        append(append(a, b), c) == append(a, append(b, c)),
{
    let l = append(append(a, b), c);
    let r = append(a, append(b, c));
    assert(l.vertices =~= r.vertices);
    let na = a.vertices.len() as int;
    let nb = b.vertices.len() as int;
    assert forall|k: int| 0 <= k < c.indices.len() implies #[trigger] shifted(shifted(c.indices, nb), na)[k]
        == shifted(c.indices, na + nb)[k] by {
        assert(c.indices[k] < c.vertices.len());
    }
    assert(shifted(shifted(c.indices, nb), na) =~= shifted(c.indices, na + nb));
    assert(shifted(b.indices + shifted(c.indices, nb), na) =~= shifted(b.indices, na) + shifted(
        shifted(c.indices, nb),
        na,
    ));
    assert(l.indices =~= r.indices);
}

/// Merging `xs + ys` gives what merging `xs` and merging `ys`, then placing the
/// second result after the first, gives: a group merged apart first leaves the
/// whole unchanged.
pub proof fn lemma_merge_nested<V>(xs: Seq<BufferModel<V>>, ys: Seq<BufferModel<V>>)
    requires
        all_wf(ys),
        total_vertices(xs) + total_vertices(ys) <= MAX_VERTICES,
    ensures
        merged(xs + ys) == append(merged(xs), merged(ys)),
        merged(xs + ys) == merged(seq![merged(xs), merged(ys)]),
    decreases ys.len(),
{
    let mx = merged(xs);
    if ys.len() == 0 {
        assert(xs + ys == xs);
        assert(mx.vertices + Seq::<V>::empty() =~= mx.vertices);
        assert(mx.indices + shifted(Seq::<u32>::empty(), mx.vertices.len() as int) =~= mx.indices);
    } else {
        let init = ys.drop_last();
        let y = ys.last();
        assert((xs + ys).drop_last() == xs + init);
        assert(all_wf(init)) by {
            assert forall|i: int| 0 <= i < init.len() implies (#[trigger] init[i]).wf() by {
                assert(init[i] == ys[i]);
            }
        }
        assert(y.wf()) by {
            assert(ys[ys.len() - 1] == y);
        }
        lemma_merge_nested(xs, init);
        lemma_merged_len(xs);
        lemma_merged_len(init);
        lemma_append_assoc(mx, merged(init), y);
    }
    lemma_merged_single(mx);
    assert(seq![mx, merged(ys)].drop_last() == seq![mx]);
}

/// Two buffers merged: the first's vertices and indices, then the second's
/// vertices, and its indices each moved up by the first's vertex count.
pub proof fn lemma_merge_two<V>(a: BufferModel<V>, b: BufferModel<V>)
    ensures
        merged(seq![a, b]).vertices == a.vertices + b.vertices,
        merged(seq![a, b]).indices == a.indices + shifted(b.indices, a.vertices.len() as int),
{
    lemma_merged_single(a);
    assert(seq![a, b].drop_last() == seq![a]);
}

/// Merged well-formed buffers are well formed: every merged index stays below
/// the merged vertex count, which is the sum of the parts' counts.
pub proof fn lemma_merged_in_bounds<V>(bufs: Seq<BufferModel<V>>)
    requires
        all_wf(bufs),
        total_vertices(bufs) <= MAX_VERTICES,
    ensures
        merged(bufs).wf(),
        merged(bufs).vertices.len() == total_vertices(bufs),
    decreases bufs.len(),
{
    if bufs.len() > 0 {
        let init = bufs.drop_last();
        let last = bufs.last();
        assert(all_wf(init)) by {
            assert forall|i: int| 0 <= i < init.len() implies (#[trigger] init[i]).wf() by {
                assert(init[i] == bufs[i]);
            }
        }
        assert(last.wf()) by {
            assert(bufs[bufs.len() - 1] == last);
        }
        lemma_merged_in_bounds(init);
        let a = merged(init);
        let m = merged(bufs);
        assert(m == append(a, last));
        let off = a.vertices.len() as int;
        assert forall|i: int| 0 <= i < m.indices.len() implies #[trigger] m.indices[i] < m.vertices.len() by {
            if i < a.indices.len() {
                assert(m.indices[i] == a.indices[i]);
            } else {
                let j = i - a.indices.len();
                assert(m.indices[i] == shifted(last.indices, off)[j]);
                assert(last.indices[j] < last.vertices.len());
            }
        }
    }
}

/// The buffers of the `Ok` results of `rs`, in order.
pub open spec fn successes<V, E>(rs: Seq<Result<VertexBuffers<V>, E>>) -> Seq<BufferModel<V>>
    decreases rs.len(),
{
    if rs.len() == 0 {
        Seq::empty()
    } else {
        let init = successes(rs.drop_last());
        match rs.last() {
            Ok(b) => init.push(b@),
            Err(_) => init,
        }
    }
}

/// How many results of `rs` are errors.
pub open spec fn failures<V, E>(rs: Seq<Result<VertexBuffers<V>, E>>) -> nat
    decreases rs.len(),
{
    if rs.len() == 0 {
        0
    } else {
        failures(rs.drop_last()) + if rs.last() is Err { 1nat } else { 0nat }
    }
}

/// Merges the buffers of the descriptors that tessellated, in order, and counts
/// those that failed and were skipped.
pub fn merge_tessellated<V: Copy, E>(results: Vec<Result<VertexBuffers<V>, E>>) -> (r: (
    VertexBuffers<V>,
    usize,
))
    requires
        all_wf(successes(results@)),
        total_vertices(successes(results@)) <= MAX_VERTICES,
    ensures
        r.0@ == merged(successes(results@)),
        r.0@.wf(),
        r.1 == failures(results@),
{
    let mut out = VertexBuffers::new();
    let mut skipped: usize = 0;
    let mut k: usize = 0;
    proof {
        assert(results@.subrange(0, 0) == Seq::<Result<VertexBuffers<V>, E>>::empty());
    }
    while k < results.len()
        invariant
            k <= results@.len(),
            all_wf(successes(results@)),
            total_vertices(successes(results@)) <= MAX_VERTICES,
            out@ == merged(successes(results@.subrange(0, k as int))),
            out@.vertices.len() == total_vertices(successes(results@.subrange(0, k as int))),
            skipped == failures(results@.subrange(0, k as int)),
            skipped <= k,
        decreases results@.len() - k,
    {
        let ghost prefix = results@.subrange(0, k as int);
        let ghost next = results@.subrange(0, k + 1);
        proof {
            assert(next.drop_last() == prefix);
            lemma_successes_prefix(results@, k + 1);
        }
        match &results[k] {
            Ok(b) => {
                proof {
                    assert(successes(next) == successes(prefix).push(b@));
                    assert(successes(next).drop_last() == successes(prefix));
                    assert(successes(next)[successes(prefix).len() as int] == b@);
                    lemma_all_wf_prefix(successes(results@), successes(next));
                }
                out.push_buffer(b);
            },
            Err(_) => {
                skipped = skipped + 1;
            },
        }
        k = k + 1;
    }
    assert(results@.subrange(0, k as int) == results@);
    proof {
        lemma_merged_in_bounds(successes(results@));
    }
    (out, skipped)
}

/// Two descriptors that both tessellated: their merge holds the first's
/// vertices and indices, then the second's vertices, and its indices each moved
/// up by the first's vertex count.
pub proof fn lemma_merge_two_results<V, E>(a: VertexBuffers<V>, b: VertexBuffers<V>)
    ensures
        merged(successes(seq![Ok::<VertexBuffers<V>, E>(a), Ok(b)])).vertices == a@.vertices + b@.vertices,
        merged(successes(seq![Ok::<VertexBuffers<V>, E>(a), Ok(b)])).indices == a@.indices + shifted(
            b@.indices,
            a@.vertices.len() as int,
        ),
        failures(seq![Ok::<VertexBuffers<V>, E>(a), Ok(b)]) == 0,
{
    let rs = seq![Ok::<VertexBuffers<V>, E>(a), Ok(b)];
    assert(rs.drop_last() == seq![Ok::<VertexBuffers<V>, E>(a)]);
    let one = rs.drop_last();
    assert(one.drop_last() == Seq::<Result<VertexBuffers<V>, E>>::empty());
    assert(one.last() == Ok::<VertexBuffers<V>, E>(a));
    assert(successes(one.drop_last()) == Seq::<BufferModel<V>>::empty());
    assert(failures(one.drop_last()) == 0);
    assert(successes(one) == Seq::<BufferModel<V>>::empty().push(a@));
    assert(failures(one) == 0);
    assert(rs.last() == Ok::<VertexBuffers<V>, E>(b));
    assert(successes(rs) =~= seq![a@, b@]);
    lemma_merge_two(a@, b@);
}

proof fn lemma_successes_prefix<V, E>(rs: Seq<Result<VertexBuffers<V>, E>>, n: int)
    requires
        0 <= n <= rs.len(),
    ensures
        total_vertices(successes(rs.subrange(0, n))) <= total_vertices(successes(rs)),
        successes(rs.subrange(0, n)).len() <= successes(rs).len(),
        forall|i: int| 0 <= i < successes(rs.subrange(0, n)).len() ==> #[trigger] successes(rs.subrange(0, n))[i] == successes(rs)[i],
    decreases rs.len(),
{
    if n < rs.len() {
        assert(rs.drop_last().subrange(0, n) == rs.subrange(0, n));
        lemma_successes_prefix(rs.drop_last(), n);
        let init = successes(rs.drop_last());
        if rs.last() is Ok {
            let all = successes(rs);
            assert(all.drop_last() == init);
            assert(total_vertices(all) == total_vertices(init) + all.last().vertices.len());
            assert forall|i: int| 0 <= i < init.len() implies #[trigger] all[i] == init[i] by {}
        }
    } else {
        assert(rs.subrange(0, n) == rs);
    }
}

proof fn lemma_all_wf_prefix<V>(whole: Seq<BufferModel<V>>, part: Seq<BufferModel<V>>)
    requires
        all_wf(whole),
        part.len() <= whole.len(),
        forall|i: int| 0 <= i < part.len() ==> #[trigger] part[i] == whole[i],
    ensures
        all_wf(part),
{
    assert forall|i: int| 0 <= i < part.len() implies (#[trigger] part[i]).wf() by {
        assert(whole[i].wf());
    }
}

} // verus!
