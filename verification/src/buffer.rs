//! The bounded output buffer: keeps a head prefix and a tail suffix of the
//! interleaved byte stream pushed into it, with exact accounting of the
//! total number of bytes seen and of what was discarded.

use std::collections::VecDeque;
use vstd::prelude::*;

verus! {

/// Which of the child's two output channels a byte range came from.
#[derive(Clone, Copy, Debug, PartialEq, Eq, Structural)]
pub enum Stream {
    Stdout,
    Stderr,
}

/// A retained contiguous run of bytes from a single stream. Adjacent
/// fragments in a window always come from different streams: same-stream
/// runs are coalesced as they are pushed.
pub struct Fragment {
    pub stream: Stream,
    pub data: Vec<u8>,
}

/// The bytes held by a window, in order, ignoring fragment boundaries.
pub open spec fn frags_bytes(fs: Seq<Fragment>) -> Seq<u8>
    decreases fs.len(),
{
    if fs.len() == 0 {
        Seq::empty()
    } else {
        fs[0].data@ + frags_bytes(fs.drop_first())
    }
}

/// Structural well-formedness of a window: no empty fragments, and adjacent
/// fragments come from different streams.
pub open spec fn frags_wf(fs: Seq<Fragment>) -> bool {
    &&& forall|i: int| 0 <= i < fs.len() ==> (#[trigger] fs[i].data@.len()) > 0
    &&& forall|i: int| 0 < i < fs.len() ==> (#[trigger] fs[i].stream) != fs[i - 1].stream
}

/// How many bytes of a `total`-byte output the head window retains under a
/// given limit: the first half of the budget, rounding down.
pub open spec fn head_keep(limit: usize, total: int) -> int {
    vstd::math::min(total, (limit / 2) as int)
}

/// How many bytes of a `total`-byte output the tail window retains under a
/// given limit: whatever the head did not take, up to the rest of the budget.
pub open spec fn tail_keep(limit: usize, total: int) -> int {
    vstd::math::min(total - head_keep(limit, total), (limit - limit / 2) as int)
}

/// Appending a fragment at the back appends its bytes at the back.
pub proof fn lemma_frags_bytes_push(fs: Seq<Fragment>, f: Fragment)
    ensures
        frags_bytes(fs.push(f)) == frags_bytes(fs) + f.data@,
    decreases fs.len(),
{
    assert(fs.push(f)[0] == if fs.len() == 0 { f } else { fs[0] });
    if fs.len() == 0 {
        let s1 = fs.push(f);
        assert(s1.drop_first() =~= Seq::<Fragment>::empty());
        assert(frags_bytes(s1.drop_first()) == Seq::<u8>::empty());
        assert(frags_bytes(s1) == s1[0].data@ + frags_bytes(s1.drop_first()));
        assert(frags_bytes(s1) =~= f.data@);
        assert(frags_bytes(fs) == Seq::<u8>::empty());
        assert(frags_bytes(fs) + f.data@ =~= f.data@);
    } else {
        assert(fs.push(f).drop_first() =~= fs.drop_first().push(f));
        lemma_frags_bytes_push(fs.drop_first(), f);
        assert(frags_bytes(fs.push(f)) =~= frags_bytes(fs) + f.data@);
    }
}

/// Removing the front fragment removes exactly its bytes from the front.
#[verifier::rlimit(100)]
pub proof fn lemma_frags_bytes_drop_first(fs: Seq<Fragment>)
    requires
        fs.len() > 0,
    ensures
        frags_bytes(fs.drop_first()) == frags_bytes(fs).skip(fs[0].data@.len() as int),
        frags_wf(fs) ==> frags_wf(fs.drop_first()),
        is_front_trim(fs, fs.drop_first()),
{
    assert(frags_bytes(fs.drop_first()) =~= frags_bytes(fs).skip(fs[0].data@.len() as int));
    reveal(is_front_trim);
    if fs.len() > 1 {
        assert(fs[1].data@.skip(0) =~= fs[1].data@);
    }
    assert(is_front_trim(fs, fs.drop_first()));
    if frags_wf(fs) {
        let dropped = fs.drop_first();
        assert forall|i: int| 0 <= i < dropped.len() implies (
        #[trigger] dropped[i].data@.len()) > 0 by {
            assert(fs[i + 1].data@.len() > 0);
        }
        assert forall|i: int| 0 < i < dropped.len() implies (#[trigger] dropped[i].stream)
            != dropped[i - 1].stream by {
            assert(fs[i + 1].stream != fs[i].stream);
        }
    }
}

/// Trimming `k` bytes off the front fragment removes exactly the first `k`
/// bytes of the window, and keeps it well formed.
#[verifier::rlimit(100)]
pub proof fn lemma_frags_bytes_trim_front(fs: Seq<Fragment>, g: Fragment, k: int)
    requires
        fs.len() > 0,
        0 <= k < fs[0].data@.len(),
        g.data@ == fs[0].data@.skip(k),
        g.stream == fs[0].stream,
    ensures
        frags_bytes(seq![g] + fs.drop_first()) == frags_bytes(fs).skip(k),
        frags_wf(fs) ==> frags_wf(seq![g] + fs.drop_first()),
        is_front_trim(fs, seq![g] + fs.drop_first()),
{
    let newfs = seq![g] + fs.drop_first();
    assert(newfs[0] == g);
    assert(newfs.drop_first() =~= fs.drop_first());
    assert(frags_bytes(newfs) == g.data@ + frags_bytes(fs.drop_first()));
    assert(frags_bytes(newfs) =~= frags_bytes(fs).skip(k));
    reveal(is_front_trim);
    assert(fs[0].data@.skip(fs[0].data@.len() - g.data@.len()) == g.data@);
    assert forall|i: int| 0 < i < newfs.len() implies (#[trigger] newfs[i]) == fs[i] by {
    }
    assert(is_front_trim(fs, newfs));
    if frags_wf(fs) {
        assert forall|i: int| 0 <= i < newfs.len() implies (
        #[trigger] newfs[i].data@.len()) > 0 by {
            if i > 0 {
                assert(fs[i].data@.len() > 0);
                assert(newfs[i] == fs[i]);
            }
        }
        assert forall|i: int| 0 < i < newfs.len() implies (#[trigger] newfs[i].stream) != newfs[i
            - 1].stream by {
            assert(fs[i].stream != fs[i - 1].stream);
            assert(newfs[i] == fs[i]);
        }
    }
}

/// How one push changes a window's fragment sequence: bytes from the same
/// stream as the newest fragment extend that fragment in place; otherwise
/// exactly one new fragment carrying the pushed stream is appended. All
/// earlier fragments are untouched.
#[verifier::opaque]
pub open spec fn coalesced_push(
    fs: Seq<Fragment>,
    stream: Stream,
    data: Seq<u8>,
    fs2: Seq<Fragment>,
) -> bool {
    if fs.len() > 0 && fs.last().stream == stream {
        &&& fs2.len() == fs.len()
        &&& fs2.drop_last() == fs.drop_last()
        &&& fs2.last().stream == stream
        &&& fs2.last().data@ == fs.last().data@ + data
    } else {
        &&& fs2.len() == fs.len() + 1
        &&& fs2.drop_last() == fs
        &&& fs2.last().stream == stream
        &&& fs2.last().data@ == data
    }
}

/// How trimming changes a window: the result is a suffix of the original
/// fragment sequence in which at most the oldest surviving fragment has
/// lost bytes from its front. Every surviving byte keeps its stream tag,
/// its order, and its fragment boundary.
#[verifier::opaque]
pub open spec fn is_front_trim(fs: Seq<Fragment>, fs2: Seq<Fragment>) -> bool {
    &&& fs2.len() <= fs.len()
    &&& forall|i: int| 0 < i < fs2.len() ==> (#[trigger] fs2[i]) == fs[fs.len() - fs2.len() + i]
    &&& fs2.len() > 0 ==> {
        let orig = fs[fs.len() - fs2.len()];
        &&& fs2[0].stream == orig.stream
        &&& fs2[0].data@.len() <= orig.data@.len()
        &&& fs2[0].data@ == orig.data@.skip(orig.data@.len() - fs2[0].data@.len())
    }
}

/// Trimming nothing is a trim.
pub proof fn lemma_front_trim_refl(fs: Seq<Fragment>)
    ensures
        is_front_trim(fs, fs),
{
    reveal(is_front_trim);
    if fs.len() > 0 {
        assert(fs[0].data@.skip(0) =~= fs[0].data@);
    }
}

/// Two trims in a row are a trim.
pub proof fn lemma_front_trim_trans(a: Seq<Fragment>, b: Seq<Fragment>, c: Seq<Fragment>)
    requires
        is_front_trim(a, b),
        is_front_trim(b, c),
    ensures
        is_front_trim(a, c),
{
    reveal(is_front_trim);
    assert forall|i: int| 0 < i < c.len() implies (#[trigger] c[i]) == a[a.len() - c.len()
        + i] by {
        assert(c[i] == b[b.len() - c.len() + i]);
        assert(b[b.len() - c.len() + i] == a[a.len() - b.len() + (b.len() - c.len() + i)]);
    }
    if c.len() > 0 {
        let j = b.len() - c.len();
        if j > 0 {
            assert(b[j] == a[a.len() - b.len() + j]);
        } else {
            let orig = a[a.len() - b.len()];
            assert(c[0].data@ =~= orig.data@.skip(orig.data@.len() - c[0].data@.len()));
        }
    }
}

/// Extending the newest fragment of a well-formed window in place appends
/// the new bytes at the back of the window: a coalescing push.
#[verifier::rlimit(100)]
proof fn lemma_coalesce_extend(prev: Seq<Fragment>, fs2: Seq<Fragment>, stream: Stream, data: Seq<u8>)
    requires
        frags_wf(prev),
        prev.len() > 0,
        prev.last().stream == stream,
        data.len() > 0,
        fs2.len() == prev.len(),
        fs2.drop_last() == prev.drop_last(),
        fs2.last().stream == stream,
        fs2.last().data@ == prev.last().data@ + data,
    ensures
        frags_wf(fs2),
        frags_bytes(fs2) == frags_bytes(prev) + data,
        coalesced_push(prev, stream, data, fs2),
{
    reveal(coalesced_push);
    assert(prev =~= prev.drop_last().push(prev.last()));
    assert(fs2 =~= prev.drop_last().push(fs2.last()));
    lemma_frags_bytes_push(prev.drop_last(), prev.last());
    lemma_frags_bytes_push(prev.drop_last(), fs2.last());
    assert(frags_bytes(fs2) =~= frags_bytes(prev) + data);
    assert forall|i: int| 0 <= i < fs2.len() implies (#[trigger] fs2[i].data@.len()) > 0 by {
        if i < fs2.len() - 1 {
            assert(fs2[i] == prev.drop_last()[i]);
            assert(prev[i].data@.len() > 0);
        }
    }
    assert forall|i: int| 0 < i < fs2.len() implies (#[trigger] fs2[i].stream) != fs2[i
        - 1].stream by {
        assert(prev[i].stream != prev[i - 1].stream);
        if i < fs2.len() - 1 {
            assert(fs2[i] == prev[i]);
        }
        assert(fs2[i - 1] == prev[i - 1]);
    }
}

/// Appending one fresh fragment to a well-formed window whose newest
/// fragment carries another stream: a non-coalescing push.
#[verifier::rlimit(100)]
proof fn lemma_coalesce_append(prev: Seq<Fragment>, fs2: Seq<Fragment>, stream: Stream, data: Seq<u8>)
    requires
        frags_wf(prev),
        prev.len() == 0 || prev.last().stream != stream,
        data.len() > 0,
        fs2.len() == prev.len() + 1,
        fs2.drop_last() == prev,
        fs2.last().stream == stream,
        fs2.last().data@ == data,
    ensures
        frags_wf(fs2),
        frags_bytes(fs2) == frags_bytes(prev) + data,
        coalesced_push(prev, stream, data, fs2),
{
    reveal(coalesced_push);
    assert(fs2 =~= prev.push(fs2.last()));
    lemma_frags_bytes_push(prev, fs2.last());
    assert forall|i: int| 0 <= i < fs2.len() implies (#[trigger] fs2[i].data@.len()) > 0 by {
        if i < prev.len() {
            assert(fs2[i] == prev[i]);
            assert(prev[i].data@.len() > 0);
        }
    }
    assert forall|i: int| 0 < i < fs2.len() implies (#[trigger] fs2[i].stream) != fs2[i
        - 1].stream by {
        assert(fs2[i - 1] == prev[i - 1]);
        if i < prev.len() {
            assert(fs2[i] == prev[i]);
            assert(prev[i].stream != prev[i - 1].stream);
        } else {
            assert(prev[i - 1] == prev.last());
        }
    }
}

/// A window's byte count is zero exactly when it holds no fragments,
/// provided fragments are nonempty.
pub proof fn lemma_frags_bytes_empty(fs: Seq<Fragment>)
    requires
        frags_wf(fs),
    ensures
        frags_bytes(fs).len() == 0 <==> fs.len() == 0,
{
    if fs.len() > 0 {
        assert(fs[0].data@.len() > 0);
    }
}

/// Appends a byte slice to a byte vector.
fn append_bytes(v: &mut Vec<u8>, data: &[u8])
    ensures
        final(v)@ == old(v)@ + data@,
{
    v.extend_from_slice(data);
    proof {
        assert(v@ =~= old(v)@ + data@);
    }
}

/// The mutable buffer that a command's merged output is pushed into.
///
/// `total_len` counts every byte ever pushed; `head`/`tail` retain at most
/// `head_limit`/`tail_limit` of them. The ghost `pushed` records the whole
/// byte sequence, so the contracts can say exactly which bytes survive.
pub struct OutputBuffer {
    pub limit: usize,
    pub head_limit: usize,
    pub tail_limit: usize,
    pub total_len: usize,
    pub head_len: usize,
    pub tail_len: usize,
    pub head: Vec<Fragment>,
    pub tail: VecDeque<Fragment>,
    pub pushed: Ghost<Seq<u8>>,
}

impl OutputBuffer {
    /// The buffer invariant: the head window holds exactly the first
    /// `head_keep` bytes pushed so far, the tail window exactly the last
    /// `tail_keep` bytes, and both windows are coalesced.
    pub open spec fn inv(self) -> bool {
        let total = self.pushed@.len() as int;
        &&& self.head_limit == self.limit / 2
        &&& self.head_limit + self.tail_limit == self.limit
        &&& self.total_len == total
        &&& self.head_len == head_keep(self.limit, total)
        &&& self.tail_len == tail_keep(self.limit, total)
        &&& frags_bytes(self.head@) == self.pushed@.take(self.head_len as int)
        &&& frags_bytes(self.tail@) == self.pushed@.skip(total - self.tail_len)
        &&& frags_wf(self.head@)
        &&& frags_wf(self.tail@)
    }

    /// A fresh buffer for one command invocation: half the budget (rounding
    /// down) for the head window, the rest for the tail window.
    pub fn new(limit: usize) -> (r: OutputBuffer)
        ensures
            r.inv(),
            r.limit == limit,
            r.head_limit == limit / 2,
            r.tail_limit == limit - limit / 2,
            r.total_len == 0,
            r.pushed@ == Seq::<u8>::empty(),
            r.head@ == Seq::<Fragment>::empty(),
            r.tail@ == Seq::<Fragment>::empty(),
    {
        let head_limit = limit / 2;
        let tail_limit = limit - head_limit;
        let r = OutputBuffer {
            limit,
            head_limit,
            tail_limit,
            total_len: 0,
            head_len: 0,
            tail_len: 0,
            head: Vec::new(),
            tail: VecDeque::new(),
            pushed: Ghost(Seq::empty()),
        };
        proof {
            assert(frags_bytes(r.head@) =~= r.pushed@.take(0));
            assert(frags_bytes(r.tail@) =~= r.pushed@.skip(0));
        }
        r
    }

    /// Appends bytes to the head window, coalescing with the last fragment
    /// when it comes from the same stream. Touches no other field.
    #[verifier::rlimit(100)]
    pub fn push_head(&mut self, stream: Stream, data: &[u8])
        requires
            frags_wf(old(self).head@),
        ensures
            frags_wf(final(self).head@),
            frags_bytes(final(self).head@) == frags_bytes(old(self).head@) + data@,
            final(self).limit == old(self).limit,
            final(self).head_limit == old(self).head_limit,
            final(self).tail_limit == old(self).tail_limit,
            final(self).total_len == old(self).total_len,
            final(self).head_len == old(self).head_len,
            final(self).tail_len == old(self).tail_len,
            final(self).tail == old(self).tail,
            final(self).pushed == old(self).pushed,
            data@.len() > 0 ==> coalesced_push(old(self).head@, stream, data@, final(self).head@),
            data@.len() == 0 ==> *final(self) == *old(self),
    {
        if data.len() == 0 {
            proof {
                assert(frags_bytes(self.head@) + data@ =~= frags_bytes(self.head@));
            }
            return;
        }
        let ghost prev = self.head@;
        let n = self.head.len();
        if n > 0 {
            let mut last = self.head.pop().unwrap();
            if last.stream == stream {
                append_bytes(&mut last.data, data);
                self.head.push(last);
                proof {
                    assert(self.head@.drop_last() =~= prev.drop_last());
                    lemma_coalesce_extend(prev, self.head@, stream, data@);
                }
                return;
            }
            self.head.push(last);
            proof {
                assert(self.head@ =~= prev);
            }
        }
        let frag = Fragment { stream, data: vstd::slice::slice_to_vec(data) };
        self.head.push(frag);
        proof {
            assert(self.head@.drop_last() =~= prev);
            lemma_coalesce_append(prev, self.head@, stream, data@);
        }
    }

    /// Appends bytes to the tail window (coalescing as in the head) and then
    /// trims it from the front, so that it keeps the most recent
    /// `tail_limit` bytes of everything routed to it.
    #[verifier::rlimit(100)]
    pub fn push_tail(&mut self, stream: Stream, data: &[u8])
        requires
            frags_wf(old(self).tail@),
            old(self).tail_len == frags_bytes(old(self).tail@).len(),
            old(self).tail_len <= old(self).tail_limit,
            old(self).tail_len + data@.len() <= usize::MAX,
        ensures
            frags_wf(final(self).tail@),
            final(self).tail_len == frags_bytes(final(self).tail@).len(),
            final(self).tail_len == vstd::math::min(
                old(self).tail_len + data@.len(),
                old(self).tail_limit as int,
            ),
            frags_bytes(final(self).tail@) == (frags_bytes(old(self).tail@) + data@).skip(
                old(self).tail_len + data@.len() - final(self).tail_len,
            ),
            data@.len() == 0 || old(self).tail_limit == 0 ==> *final(self) == *old(self),
            data@.len() > 0 && old(self).tail_limit > 0 ==> exists|mid: Seq<Fragment>|
                #[trigger] coalesced_push(old(self).tail@, stream, data@, mid) && is_front_trim(
                    mid,
                    final(self).tail@,
                ),
            final(self).limit == old(self).limit,
            final(self).head_limit == old(self).head_limit,
            final(self).tail_limit == old(self).tail_limit,
            final(self).total_len == old(self).total_len,
            final(self).head_len == old(self).head_len,
            final(self).head == old(self).head,
            final(self).pushed == old(self).pushed,
    {
        let ghost prev = self.tail@;
        let ghost prev_bytes = frags_bytes(prev);
        if data.len() == 0 {
            proof {
                assert((prev_bytes + data@).skip(0) =~= prev_bytes);
            }
            return;
        }
        if self.tail_limit == 0 {
            proof {
                lemma_frags_bytes_empty(prev);
                assert((prev_bytes + data@).skip(prev_bytes.len() + data@.len() as int) =~= Seq::<
                    u8,
                >::empty());
                assert(prev_bytes =~= Seq::<u8>::empty());
            }
            return;
        }
        self.tail_append(stream, data);
        let ghost mid = *self;
        proof {
            assert(frags_bytes(mid.tail@) == prev_bytes + data@);
            assert(mid.tail_len == prev_bytes.len() + data@.len());
        }
        self.trim_tail();
        proof {
            assert(frags_bytes(self.tail@) == frags_bytes(mid.tail@).skip(
                mid.tail_len - self.tail_len,
            ));
            assert(coalesced_push(prev, stream, data@, mid.tail@) && is_front_trim(
                mid.tail@,
                self.tail@,
            ));
        }
    }

    /// Appends bytes at the back of the tail window, coalescing with the
    /// last fragment when it comes from the same stream.
    #[verifier::rlimit(100)]
    fn tail_append(&mut self, stream: Stream, data: &[u8])
        requires
            frags_wf(old(self).tail@),
            old(self).tail_len == frags_bytes(old(self).tail@).len(),
            old(self).tail_len + data@.len() <= usize::MAX,
            data@.len() > 0,
        ensures
            frags_wf(final(self).tail@),
            final(self).tail_len == old(self).tail_len + data@.len(),
            frags_bytes(final(self).tail@) == frags_bytes(old(self).tail@) + data@,
            final(self).limit == old(self).limit,
            final(self).head_limit == old(self).head_limit,
            final(self).tail_limit == old(self).tail_limit,
            final(self).total_len == old(self).total_len,
            final(self).head_len == old(self).head_len,
            final(self).head == old(self).head,
            final(self).pushed == old(self).pushed,
            coalesced_push(old(self).tail@, stream, data@, final(self).tail@),
            final(self).tail@.len() > 0 && final(self).tail@.last().stream == stream,
    {
        let ghost prev = self.tail@;
        let ghost prev_bytes = frags_bytes(prev);
        let back = self.tail.pop_back();
        match back {
            Some(last) => {
                let mut last = last;
                if last.stream == stream {
                    append_bytes(&mut last.data, data);
                    self.tail.push_back(last);
                    proof {
                        assert(self.tail@.drop_last() =~= prev.drop_last());
                        lemma_coalesce_extend(prev, self.tail@, stream, data@);
                    }
                } else {
                    self.tail.push_back(last);
                    proof {
                        assert(self.tail@ =~= prev);
                    }
                    let frag = Fragment { stream, data: vstd::slice::slice_to_vec(data) };
                    self.tail.push_back(frag);
                    proof {
                        assert(self.tail@.drop_last() =~= prev);
                        lemma_coalesce_append(prev, self.tail@, stream, data@);
                    }
                }
            },
            None => {
                let frag = Fragment { stream, data: vstd::slice::slice_to_vec(data) };
                self.tail.push_back(frag);
                proof {
                    assert(self.tail@.drop_last() =~= prev);
                    lemma_coalesce_append(prev, self.tail@, stream, data@);
                }
            },
        }
        self.tail_len = self.tail_len + data.len();
    }

    /// Removes bytes from the front (oldest end) of the tail window until it
    /// is back within `tail_limit`, dropping whole fragments where possible
    /// and otherwise trimming the front fragment at byte granularity.
    #[verifier::spinoff_prover]
    #[verifier::rlimit(100)]
    pub fn trim_tail(&mut self)
        requires
            frags_wf(old(self).tail@),
            old(self).tail_len == frags_bytes(old(self).tail@).len(),
        ensures
            frags_wf(final(self).tail@),
            final(self).tail_len == frags_bytes(final(self).tail@).len(),
            final(self).tail_len == vstd::math::min(
                old(self).tail_len as int,
                old(self).tail_limit as int,
            ),
            frags_bytes(final(self).tail@) == frags_bytes(old(self).tail@).skip(
                old(self).tail_len - final(self).tail_len,
            ),
            is_front_trim(old(self).tail@, final(self).tail@),
            final(self).limit == old(self).limit,
            final(self).head_limit == old(self).head_limit,
            final(self).tail_limit == old(self).tail_limit,
            final(self).total_len == old(self).total_len,
            final(self).head_len == old(self).head_len,
            final(self).head == old(self).head,
            final(self).pushed == old(self).pushed,
    {
        proof {
            assert(frags_bytes(self.tail@).skip(0) =~= frags_bytes(self.tail@));
            lemma_front_trim_refl(self.tail@);
        }
        while self.tail_len > self.tail_limit
            invariant
                old(self).tail_len == frags_bytes(old(self).tail@).len(),
                frags_wf(self.tail@),
                self.tail_len == frags_bytes(self.tail@).len(),
                vstd::math::min(old(self).tail_len as int, self.tail_limit as int)
                    <= self.tail_len <= old(self).tail_len,
                frags_bytes(self.tail@) == frags_bytes(old(self).tail@).skip(
                    old(self).tail_len - self.tail_len,
                ),
                is_front_trim(old(self).tail@, self.tail@),
                self.limit == old(self).limit,
                self.head_limit == old(self).head_limit,
                self.tail_limit == old(self).tail_limit,
                self.total_len == old(self).total_len,
                self.head_len == old(self).head_len,
                self.head == old(self).head,
                self.pushed == old(self).pushed,
            decreases self.tail_len,
        {
            let overflow = self.tail_len - self.tail_limit;
            let ghost cur = self.tail@;
            let ghost cur_bytes = frags_bytes(cur);
            proof {
                lemma_frags_bytes_empty(cur);
            }
            let front = self.tail.pop_front().unwrap();
            if front.data.len() <= overflow {
                self.tail_len = self.tail_len - front.data.len();
                proof {
                    lemma_frags_bytes_drop_first(cur);
                    assert(self.tail@ =~= cur.drop_first());
                    vstd::seq_lib::lemma_seq_skip_of_skip(
                        frags_bytes(old(self).tail@),
                        old(self).tail_len - (self.tail_len + front.data@.len()),
                        front.data@.len() as int,
                    );
                    lemma_front_trim_trans(old(self).tail@, cur, self.tail@);
                }
            } else {
                let mut front = front;
                let rest = front.data.split_off(overflow);
                self.tail.push_front(Fragment { stream: front.stream, data: rest });
                self.tail_len = self.tail_len - overflow;
                proof {
                    assert(self.tail@[0].data@ == cur[0].data@.subrange(
                        overflow as int,
                        cur[0].data@.len() as int,
                    ));
                    lemma_frags_bytes_trim_front(cur, self.tail@[0], overflow as int);
                    assert(self.tail@ =~= seq![self.tail@[0]] + cur.drop_first());
                    vstd::seq_lib::lemma_seq_skip_of_skip(
                        frags_bytes(old(self).tail@),
                        old(self).tail_len - (self.tail_len + overflow),
                        overflow as int,
                    );
                    lemma_front_trim_trans(old(self).tail@, cur, self.tail@);
                }
            }
        }
    }

    /// Feeds one chunk into the buffer: counts its bytes, fills the head
    /// window first, and routes the remainder to the tail window, splitting
    /// the chunk exactly at the head/tail boundary.
    ///
    /// `total_len` grows by exactly the chunk's length even when trimming
    /// later discards bytes, and an empty chunk changes nothing.
    #[verifier::rlimit(100)]
    pub fn push(&mut self, stream: Stream, data: &[u8])
        requires
            old(self).inv(),
            old(self).total_len + data@.len() <= usize::MAX,
        ensures
            final(self).inv(),
            final(self).pushed@ == old(self).pushed@ + data@,
            final(self).total_len == old(self).total_len + data@.len(),
            final(self).limit == old(self).limit,
            final(self).head_limit == old(self).head_limit,
            final(self).tail_limit == old(self).tail_limit,
            data@.len() == 0 ==> *final(self) == *old(self),
            old(self).head_len == old(self).head_limit ==> final(self).head == old(self).head,
    {
        if data.len() == 0 {
            proof {
                assert(self.pushed@ + data@ =~= self.pushed@);
            }
            return;
        }
        let ghost prev = *old(self);
        let ghost old_pushed = self.pushed@;
        let ghost old_total = old_pushed.len() as int;
        let ghost n = data@.len() as int;
        self.pushed = Ghost(old_pushed + data@);
        self.total_len = self.total_len + data.len();

        let mut consumed: usize = 0;
        if self.head_len < self.head_limit {
            let avail = self.head_limit - self.head_len;
            let keep = if avail < data.len() {
                avail
            } else {
                data.len()
            };
            let part = vstd::slice::slice_subrange(data, 0, keep);
            self.push_head(stream, part);
            self.head_len = self.head_len + keep;
            consumed = keep;
            proof {
                // The head was not full, so everything pushed so far sits in it.
                assert(prev.head_len == old_total);
                assert(frags_bytes(self.head@) == old_pushed.take(old_total) + data@.subrange(
                    0,
                    keep as int,
                ));
                assert(old_pushed.take(old_total) =~= old_pushed);
                assert(self.pushed@.take(self.head_len as int) =~= old_pushed + data@.subrange(
                    0,
                    keep as int,
                ));
                assert(frags_bytes(self.head@) =~= self.pushed@.take(self.head_len as int));
            }
        } else {
            proof {
                assert(self.pushed@.take(self.head_len as int) =~= old_pushed.take(
                    self.head_len as int,
                ));
            }
        }
        if consumed < data.len() {
            let rest = vstd::slice::slice_subrange(data, consumed, data.len());
            let ghost pre = *self;
            proof {
                assert(pre.tail_len == tail_keep(prev.limit, old_total));
                assert(pre.tail_len + rest@.len() <= usize::MAX);
            }
            self.push_tail(stream, rest);
            proof {
                let total = old_total + n;
                let c = consumed as int;
                // The bytes fed to the tail over time are exactly the bytes
                // pushed after the head filled up.
                if c == 0 {
                    assert(prev.head_len == prev.head_limit);
                    assert(frags_bytes(pre.tail@) == old_pushed.skip(old_total - pre.tail_len));
                    assert(frags_bytes(pre.tail@) + rest@ =~= self.pushed@.skip(
                        old_total + c - pre.tail_len,
                    ));
                } else {
                    // The head had room, so the tail was empty beforehand.
                    assert(prev.head_len == old_total);
                    assert(pre.tail_len == 0);
                    assert(frags_bytes(pre.tail@) == old_pushed.skip(old_total - 0));
                    assert(frags_bytes(pre.tail@) =~= Seq::<u8>::empty());
                    assert(frags_bytes(pre.tail@) + rest@ =~= self.pushed@.skip(
                        old_total + c - pre.tail_len,
                    ));
                }
                assert(frags_bytes(self.tail@) =~= self.pushed@.skip(
                    old_total + c - pre.tail_len,
                ).skip(pre.tail_len + rest@.len() - self.tail_len));
                assert(self.pushed@.skip(old_total + c - pre.tail_len).skip(
                    pre.tail_len + rest@.len() - self.tail_len,
                ) =~= self.pushed@.skip(total - self.tail_len));
                assert(frags_bytes(self.tail@) == self.pushed@.skip(total - self.tail_len));
            }
        } else {
            proof {
                let total = old_total + n;
                assert(self.head_len == head_keep(self.limit, total));
                assert(self.tail_len == tail_keep(prev.limit, old_total));
                assert(self.tail_len == tail_keep(self.limit, total));
                assert(frags_bytes(self.tail@) == old_pushed.skip(old_total - self.tail_len));
                assert(old_pushed.skip(old_total - self.tail_len) =~= self.pushed@.skip(
                    total - self.tail_len,
                ));
            }
        }
    }
    /// Finalizes the buffer into an immutable snapshot, computing the
    /// truncation flag. No pushes happen after this.
    pub fn finish(self) -> (r: CapturedOutput)
        requires
            self.inv(),
        ensures
            r.inv(),
            r.pushed == self.pushed,
            r.limit == self.limit,
            r.head_limit == self.head_limit,
            r.tail_limit == self.tail_limit,
            r.total_len == self.total_len,
            r.truncated == (self.total_len > self.limit),
            r.head@ == self.head@,
            r.tail@ == self.tail@,
    {
        let ghost orig = self.tail@;
        let truncated = self.total_len > self.limit;
        let OutputBuffer { limit, head_limit, tail_limit, total_len, head, mut tail, pushed, .. } =
            self;
        let mut tail_vec: Vec<Fragment> = Vec::new();
        while tail.len() > 0
            invariant
                orig == tail_vec@ + tail@,
            decreases tail.len(),
        {
            let f = tail.pop_front().unwrap();
            tail_vec.push(f);
            proof {
                assert(tail_vec@ + tail@ =~= orig);
            }
        }
        proof {
            assert(tail_vec@ =~= orig);
        }
        CapturedOutput { limit, head_limit, tail_limit, total_len, truncated, head, tail: tail_vec, pushed }
    }
}

/// An immutable snapshot of a command's captured output, produced once when
/// the command's streams have closed.
pub struct CapturedOutput {
    pub limit: usize,
    pub head_limit: usize,
    pub tail_limit: usize,
    pub total_len: usize,
    pub truncated: bool,
    pub head: Vec<Fragment>,
    pub tail: Vec<Fragment>,
    pub pushed: Ghost<Seq<u8>>,
}

impl CapturedOutput {
    /// The snapshot invariant: `truncated` records whether anything was
    /// discarded, and the windows hold exactly the first `head_keep` and the
    /// last `tail_keep` bytes of everything pushed.
    pub open spec fn inv(self) -> bool {
        let total = self.pushed@.len() as int;
        &&& self.head_limit == self.limit / 2
        &&& self.head_limit + self.tail_limit == self.limit
        &&& self.total_len == total
        &&& self.truncated == (self.total_len > self.limit)
        &&& frags_bytes(self.head@) == self.pushed@.take(head_keep(self.limit, total))
        &&& frags_bytes(self.tail@) == self.pushed@.skip(total - tail_keep(self.limit, total))
        &&& frags_wf(self.head@)
        &&& frags_wf(self.tail@)
    }

    /// The snapshot substituted for a successful command, whose output is
    /// never rendered: nothing captured, nothing truncated.
    pub fn empty(limit: usize) -> (r: CapturedOutput)
        ensures
            r.inv(),
            r.limit == limit,
            r.head_limit == limit / 2,
            r.tail_limit == limit - limit / 2,
            r.total_len == 0,
            r.truncated == false,
            r.head@ == Seq::<Fragment>::empty(),
            r.tail@ == Seq::<Fragment>::empty(),
            r.pushed@ == Seq::<u8>::empty(),
    {
        let head_limit = limit / 2;
        let tail_limit = limit - head_limit;
        let r = CapturedOutput {
            limit,
            head_limit,
            tail_limit,
            total_len: 0,
            truncated: false,
            head: Vec::new(),
            tail: Vec::new(),
            pushed: Ghost(Seq::empty()),
        };
        proof {
            assert(frags_bytes(r.head@) =~= r.pushed@.take(0));
            assert(frags_bytes(r.tail@) =~= r.pushed@.skip(0));
        }
        r
    }

    /// How many bytes the truncation banner reports as omitted: everything
    /// beyond the configured limit, zero when nothing was discarded.
    pub fn omitted_count(&self) -> (n: usize)
        ensures
            self.total_len > self.limit ==> n == self.total_len - self.limit,
            self.total_len <= self.limit ==> n == 0,
    {
        if self.total_len > self.limit {
            self.total_len - self.limit
        } else {
            0
        }
    }
}

/// Routes one fragment's bytes to the sink matching its stream tag, leaving
/// the other sink untouched.
pub fn write_fragment(stdout: &mut Vec<u8>, stderr: &mut Vec<u8>, fragment: &Fragment)
    ensures
        fragment.stream == Stream::Stdout ==> final(stdout)@ == old(stdout)@ + fragment.data@
            && final(stderr)@ == old(stderr)@,
        fragment.stream == Stream::Stderr ==> final(stderr)@ == old(stderr)@ + fragment.data@
            && final(stdout)@ == old(stdout)@,
{
    match fragment.stream {
        Stream::Stdout => {
            append_bytes(stdout, fragment.data.as_slice());
        },
        Stream::Stderr => {
            append_bytes(stderr, fragment.data.as_slice());
        },
    }
}

/// Decides what one command's run hands to the sequencer: a failing
/// command's buffer is finalized for rendering; a successful command's
/// captured output is discarded and an empty snapshot of the same limit is
/// substituted, since success is never rendered.
pub fn finalize_outcome(exit_code: i32, buffer: OutputBuffer) -> (r: (i32, CapturedOutput))
    requires
        buffer.inv(),
    ensures
        r.0 == exit_code,
        r.1.inv(),
        r.1.limit == buffer.limit,
        exit_code == 0 ==> r.1.total_len == 0 && !r.1.truncated && r.1.head@ == Seq::<
            Fragment,
        >::empty() && r.1.tail@ == Seq::<Fragment>::empty(),
        exit_code != 0 ==> r.1.pushed == buffer.pushed && r.1.total_len == buffer.total_len
            && r.1.truncated == (buffer.total_len > buffer.limit) && r.1.head@ == buffer.head@
            && r.1.tail@ == buffer.tail@,
{
    if exit_code == 0 {
        (0, CapturedOutput::empty(buffer.limit))
    } else {
        (exit_code, buffer.finish())
    }
}

/// Window-size bounds: the head window never exceeds half the limit
/// (rounding down), the tail window never exceeds the rest, and together
/// they never exceed the limit.
pub proof fn lemma_window_bounds(b: OutputBuffer)
    requires
        b.inv(),
    ensures
        b.head_len <= b.limit / 2,
        b.tail_len <= b.limit - b.limit / 2,
        b.head_len + b.tail_len <= b.limit,
{
}

/// Completeness: when the total output fits within the limit, head then
/// tail reproduce the pushed byte sequence exactly, with no gap and no
/// duplication.
pub proof fn lemma_untruncated_round_trip(c: CapturedOutput)
    requires
        c.inv(),
        c.total_len <= c.limit,
    ensures
        frags_bytes(c.head@) + frags_bytes(c.tail@) == c.pushed@,
{
    let total = c.pushed@.len() as int;
    if total <= c.head_limit {
        assert(tail_keep(c.limit, total) == 0);
        assert(c.pushed@.take(total) + c.pushed@.skip(total) =~= c.pushed@);
    } else {
        assert(head_keep(c.limit, total) == c.head_limit as int);
        assert(tail_keep(c.limit, total) == total - c.head_limit);
        assert(c.pushed@.take(c.head_limit as int) + c.pushed@.skip(c.head_limit as int)
            =~= c.pushed@);
    }
}

/// Truncation: when the total output exceeds the limit, head then tail are
/// exactly the first `head_limit` bytes followed by the last `tail_limit`
/// bytes of the pushed sequence.
pub proof fn lemma_truncated_head_and_tail(c: CapturedOutput)
    requires
        c.inv(),
        c.total_len > c.limit,
    ensures
        frags_bytes(c.head@) == c.pushed@.take(c.head_limit as int),
        frags_bytes(c.tail@) == c.pushed@.skip(c.pushed@.len() - c.tail_limit),
        frags_bytes(c.head@).len() == c.head_limit,
        frags_bytes(c.tail@).len() == c.tail_limit,
{
    let total = c.pushed@.len() as int;
    assert(head_keep(c.limit, total) == c.head_limit as int);
    assert(tail_keep(c.limit, total) == c.tail_limit as int);
}

} // verus!

