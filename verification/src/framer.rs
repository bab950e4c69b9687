//! Incremental line framing of a raw byte stream.
//!
//! Incoming bytes accumulate; each complete frame is the span before a line
//! feed, with the line feed removed and surrounding ASCII whitespace
//! trimmed. The accumulator grows without bound while no line feed arrives:
//! a sender is expected to terminate every line.

use vstd::prelude::*;

verus! {

/// ASCII whitespace: space, tab, line feed, vertical tab, form feed,
/// carriage return.
pub open spec fn is_ws(b: u8) -> bool {
    b == 32 || (9 <= b && b <= 13)
}

/// Index of the first line feed in `s`, or `s.len()` when there is none.
pub open spec fn first_nl(s: Seq<u8>) -> int
    decreases s.len(),
{
    if s.len() == 0 {
        0
    } else if s[0] == 10 {
        0
    } else {
        1 + first_nl(s.skip(1))
    }
}

pub open spec fn trim_front(s: Seq<u8>) -> Seq<u8>
    decreases s.len(),
{
    if s.len() > 0 && is_ws(s[0]) {
        trim_front(s.skip(1))
    } else {
        s
    }
}

pub open spec fn trim_back(s: Seq<u8>) -> Seq<u8>
    decreases s.len(),
{
    if s.len() > 0 && is_ws(s.last()) {
        trim_back(s.drop_last())
    } else {
        s
    }
}

/// A frame body with leading and trailing ASCII whitespace removed.
pub open spec fn trim(s: Seq<u8>) -> Seq<u8> {
    trim_back(trim_front(s))
}

/// All complete frames of a byte stream, in order: one per line feed, each
/// the trimmed bytes before that line feed.
pub open spec fn frames_of(s: Seq<u8>) -> Seq<Seq<u8>>
    decreases s.len(),
{
    if 0 <= first_nl(s) && first_nl(s) < s.len() {
        seq![trim(s.take(first_nl(s)))] + frames_of(s.skip(first_nl(s) + 1))
    } else {
        Seq::empty()
    }
}

/// The incomplete tail of a byte stream: what follows its last line feed.
pub open spec fn rest_of(s: Seq<u8>) -> Seq<u8>
    decreases s.len(),
{
    if 0 <= first_nl(s) && first_nl(s) < s.len() {
        rest_of(s.skip(first_nl(s) + 1))
    } else {
        s
    }
}

proof fn lemma_first_nl(s: Seq<u8>)
    ensures
        0 <= first_nl(s) <= s.len(),
        first_nl(s) < s.len() ==> s[first_nl(s)] == 10,
        forall|i: int| 0 <= i < first_nl(s) ==> s[i] != 10,
    decreases s.len(),
{
    if s.len() > 0 && s[0] != 10 {
        lemma_first_nl(s.skip(1));
        assert forall|i: int| 0 <= i < first_nl(s) implies s[i] != 10 by {
            if i > 0 {
                assert(s.skip(1)[i - 1] == s[i]);
            }
        }
        if first_nl(s) < s.len() {
            assert(s.skip(1)[first_nl(s) - 1] == s[first_nl(s)]);
        }
    }
}

/// The first line feed is exactly the first index holding one.
proof fn lemma_first_nl_is(s: Seq<u8>, i: int)
    requires
        0 <= i < s.len(),
        s[i] == 10,
        forall|j: int| 0 <= j < i ==> s[j] != 10,
    ensures
        first_nl(s) == i,
    decreases s.len(),
{
    if i > 0 {
        assert forall|j: int| 0 <= j < i - 1 implies s.skip(1)[j] != 10 by {
            assert(s.skip(1)[j] == s[j + 1]);
        }
        assert(s.skip(1)[i - 1] == s[i]);
        lemma_first_nl_is(s.skip(1), i - 1);
    }
}

/// Chunking invariance: however a byte stream is cut into chunks, the
/// frames come out the same. Feeding `b` after `a` yields the frames of
/// `a` followed by the frames that `a`'s incomplete tail and `b` complete
/// together, and that is exactly the frame sequence of the whole stream
/// `a + b`; the incomplete tails agree as well.
pub proof fn lemma_frames_concat(a: Seq<u8>, b: Seq<u8>)
    ensures
        frames_of(a + b) == frames_of(a) + frames_of(rest_of(a) + b),
        rest_of(a + b) == rest_of(rest_of(a) + b),
    decreases a.len(),
{
    lemma_first_nl(a);
    let i = first_nl(a);
    if i < a.len() {
        assert forall|j: int| 0 <= j < i implies (a + b)[j] != 10 by {
            assert((a + b)[j] == a[j]);
        }
        assert((a + b)[i] == a[i]);
        lemma_first_nl_is(a + b, i);
        assert((a + b).take(i) =~= a.take(i));
        assert((a + b).skip(i + 1) =~= a.skip(i + 1) + b);
        lemma_frames_concat(a.skip(i + 1), b);
        assert(frames_of(a + b) =~~= frames_of(a) + frames_of(rest_of(a) + b));
    } else {
        assert(rest_of(a) =~= a);
        assert(frames_of(a + b) =~~= frames_of(a) + frames_of(rest_of(a) + b));
    }
}

proof fn lemma_trim_front_at(s: Seq<u8>, k: int)
    requires
        0 <= k <= s.len(),
        forall|j: int| 0 <= j < k ==> is_ws(#[trigger] s[j]),
        k < s.len() ==> !is_ws(s[k]),
    ensures
        trim_front(s) == s.skip(k),
    decreases k,
{
    if k == 0 {
        assert(s.skip(0) =~= s);
    } else {
        assert(is_ws(s[0]));
        assert forall|j: int| 0 <= j < k - 1 implies is_ws(#[trigger] s.skip(1)[j]) by {
            assert(s.skip(1)[j] == s[j + 1]);
        }
        if k - 1 < s.skip(1).len() {
            assert(s.skip(1)[k - 1] == s[k]);
        }
        lemma_trim_front_at(s.skip(1), k - 1);
        assert(s.skip(1).skip(k - 1) =~= s.skip(k));
    }
}

proof fn lemma_trim_back_at(s: Seq<u8>, h: int)
    requires
        0 <= h <= s.len(),
        forall|j: int| h <= j < s.len() ==> is_ws(#[trigger] s[j]),
        h > 0 ==> !is_ws(s[h - 1]),
    ensures
        trim_back(s) == s.take(h),
    decreases s.len() - h,
{
    if h == s.len() {
        if s.len() > 0 {
            assert(!is_ws(s.last()));
        }
        assert(s.take(h) =~= s);
    } else {
        assert(is_ws(s.last()));
        assert forall|j: int| h <= j < s.drop_last().len() implies is_ws(
            #[trigger] s.drop_last()[j],
        ) by {
            assert(s.drop_last()[j] == s[j]);
        }
        if h > 0 {
            assert(s.drop_last()[h - 1] == s[h - 1]);
        }
        lemma_trim_back_at(s.drop_last(), h);
        assert(s.drop_last().take(h) =~= s.take(h));
    }
}

fn is_ws_byte(b: u8) -> (r: bool)
    ensures
        r == is_ws(b),
{
    b == 32 || (9 <= b && b <= 13)
}

/// Splits an incrementally fed byte stream into complete, trimmed frames.
///
/// `fed` records every byte ever pushed and `emitted` every frame ever
/// returned; well-formedness ties the two together through the
/// accumulator, so the frames depend only on the whole stream, not on the
/// chunk boundaries.
pub struct LineFramer {
    pub acc: Vec<u8>,
    pub fed: Ghost<Seq<u8>>,
    pub emitted: Ghost<Seq<Seq<u8>>>,
}

impl LineFramer {
    pub open spec fn wf(&self) -> bool {
        &&& self.emitted@ + frames_of(self.acc@) == frames_of(self.fed@)
        &&& rest_of(self.acc@) == rest_of(self.fed@)
    }

    pub fn new() -> (r: LineFramer)
        ensures
            r.wf(),
            r.acc@ == Seq::<u8>::empty(),
            r.fed@ == Seq::<u8>::empty(),
            r.emitted@ == Seq::<Seq<u8>>::empty(),
    {
        let r = LineFramer { acc: Vec::new(), fed: Ghost(Seq::empty()), emitted: Ghost(Seq::empty()) };
        proof {
            lemma_first_nl(r.acc@);
            assert(r.emitted@ + frames_of(r.acc@) =~~= frames_of(r.fed@));
        }
        r
    }

    /// Appends one chunk of raw bytes to the accumulator.
    pub fn push(&mut self, chunk: &Vec<u8>)
        requires
            old(self).wf(),
        ensures
            final(self).wf(),
            final(self).acc@ == old(self).acc@ + chunk@,
            final(self).fed@ == old(self).fed@ + chunk@,
            final(self).emitted@ == old(self).emitted@,
    {
        let n = chunk.len();
        let mut k: usize = 0;
        while k < n
            invariant
                k <= n,
                n == chunk@.len(),
                self.acc@ == old(self).acc@ + chunk@.take(k as int),
                self.fed == old(self).fed,
                self.emitted == old(self).emitted,
            decreases n - k,
        {
            let b = chunk[k];
            self.acc.push(b);
            proof {
                assert(old(self).acc@ + chunk@.take(k as int + 1) =~= (old(self).acc@
                    + chunk@.take(k as int)).push(chunk@[k as int]));
            }
            k += 1;
        }
        proof {
            assert(chunk@.take(n as int) =~= chunk@);
        }
        self.fed = Ghost(self.fed@ + chunk@);
        proof {
            lemma_frames_concat(old(self).fed@, chunk@);
            lemma_frames_concat(old(self).acc@, chunk@);
            assert(self.emitted@ + frames_of(self.acc@) =~~= frames_of(self.fed@));
        }
    }

    /// Removes and returns the next complete frame, trimmed, or returns
    /// `None` when no line feed remains in the accumulator — in which case
    /// everything fed so far has been emitted as frames.
    pub fn next_frame(&mut self) -> (r: Option<Vec<u8>>)
        requires
            old(self).wf(),
        ensures
            final(self).wf(),
            final(self).fed@ == old(self).fed@,
            r matches Some(f) ==> {
                &&& frames_of(old(self).acc@).len() > 0
                &&& f@ == frames_of(old(self).acc@)[0]
                &&& frames_of(final(self).acc@) == frames_of(old(self).acc@).skip(1)
                &&& final(self).emitted@ == old(self).emitted@.push(f@)
            },
            r is None ==> {
                &&& *final(self) == *old(self)
                &&& frames_of(final(self).acc@).len() == 0
                &&& final(self).emitted@ == frames_of(final(self).fed@)
            },
    {
        let n = self.acc.len();
        let mut pos: usize = 0;
        while pos < n && self.acc[pos] != 10
            invariant
                pos <= n,
                n == self.acc@.len(),
                self == old(self),
                forall|j: int| 0 <= j < pos ==> self.acc@[j] != 10,
            decreases n - pos,
        {
            pos += 1;
        }
        if pos == n {
            proof {
                lemma_first_nl(self.acc@);
                if first_nl(self.acc@) < n {
                    assert(self.acc@[first_nl(self.acc@)] == 10);
                }
                assert(frames_of(self.acc@).len() == 0);
                assert(self.emitted@ + frames_of(self.acc@) =~~= self.emitted@);
            }
            return None;
        }
        proof {
            lemma_first_nl_is(self.acc@, pos as int);
        }
        let ghost line = self.acc@.take(pos as int);

        let mut lo: usize = 0;
        while lo < pos && is_ws_byte(self.acc[lo])
            invariant
                lo <= pos,
                pos < n,
                n == self.acc@.len(),
                self == old(self),
                forall|j: int| 0 <= j < lo ==> is_ws(#[trigger] self.acc@[j]),
            decreases pos - lo,
        {
            lo += 1;
        }
        let mut hi: usize = pos;
        while hi > lo && is_ws_byte(self.acc[hi - 1])
            invariant
                lo <= hi <= pos,
                pos < n,
                n == self.acc@.len(),
                self == old(self),
                forall|j: int| hi <= j < pos ==> is_ws(#[trigger] self.acc@[j]),
            decreases hi,
        {
            hi -= 1;
        }
        proof {
            assert forall|j: int| 0 <= j < lo implies is_ws(#[trigger] line[j]) by {
                assert(line[j] == self.acc@[j]);
            }
            if (lo as int) < line.len() {
                assert(line[lo as int] == self.acc@[lo as int]);
            }
            lemma_trim_front_at(line, lo as int);
            let tail = line.skip(lo as int);
            assert forall|j: int| hi - lo <= j < tail.len() implies is_ws(#[trigger] tail[j]) by {
                assert(tail[j] == self.acc@[j + lo]);
            }
            if hi > lo {
                assert(tail[hi - lo - 1] == self.acc@[hi - 1]);
            }
            lemma_trim_back_at(tail, hi - lo);
            assert(trim(line) =~= self.acc@.subrange(lo as int, hi as int));
        }

        let mut frame: Vec<u8> = Vec::new();
        let mut j = lo;
        while j < hi
            invariant
                lo <= j <= hi <= pos,
                pos < n,
                n == self.acc@.len(),
                self == old(self),
                frame@ == self.acc@.subrange(lo as int, j as int),
            decreases hi - j,
        {
            let b = self.acc[j];
            frame.push(b);
            proof {
                assert(self.acc@.subrange(lo as int, j as int + 1) =~= self.acc@.subrange(
                    lo as int,
                    j as int,
                ).push(self.acc@[j as int]));
            }
            j += 1;
        }

        let mut rest: Vec<u8> = Vec::new();
        let mut k = pos + 1;
        while k < n
            invariant
                pos + 1 <= k <= n,
                pos < n,
                n == self.acc@.len(),
                self == old(self),
                rest@ == self.acc@.subrange(pos as int + 1, k as int),
            decreases n - k,
        {
            let b = self.acc[k];
            rest.push(b);
            proof {
                assert(self.acc@.subrange(pos as int + 1, k as int + 1) =~= self.acc@.subrange(
                    pos as int + 1,
                    k as int,
                ).push(self.acc@[k as int]));
            }
            k += 1;
        }
        proof {
            assert(rest@ =~= self.acc@.skip(pos as int + 1));
            assert(frame@ == trim(line));
            assert(frames_of(self.acc@)[0] == trim(line));
        }
        let ghost old_acc = self.acc@;
        self.acc = rest;
        self.emitted = Ghost(self.emitted@.push(frame@));
        proof {
            assert(frames_of(old_acc).skip(1) =~~= frames_of(self.acc@));
            assert(self.emitted@ + frames_of(self.acc@) =~~= old(self).emitted@ + frames_of(
                old_acc,
            ));
        }
        Some(frame)
    }
}

} // verus!
