use vstd::prelude::*;
use vstd::utf8::{decode_utf8, valid_utf8};

verus! {

/// The byte that ends a line.
pub const NEWLINE: u8 = 10;

/// What `String::from_utf8_lossy` makes of `bytes`.
pub uninterp spec fn lossy_text(bytes: Seq<u8>) -> Seq<char>;

/// Relies on `String::from_utf8_lossy`: its result depends on the bytes
/// alone, and valid UTF-8 is decoded without replacement.
#[verifier::external_body]
fn decode_lossy(bytes: &[u8]) -> (r: String)
    ensures
        r@ == lossy_text(bytes@),
        valid_utf8(bytes@) ==> r@ == decode_utf8(bytes@),
{
    String::from_utf8_lossy(bytes).into_owned()
}

/// Splits a byte stream into the complete lines it holds (without their
/// newline bytes) and the partial line after the last newline.
pub open spec fn split_lines(b: Seq<u8>) -> (Seq<Seq<u8>>, Seq<u8>)
    decreases b.len(),
{
    if b.len() == 0 {
        (Seq::empty(), Seq::empty())
    } else {
        let (lines, rest) = split_lines(b.drop_last());
        if b.last() == NEWLINE {
            (lines.push(rest), Seq::empty())
        } else {
            (lines, rest.push(b.last()))
        }
    }
}

/// The complete lines of a byte stream.
pub open spec fn frames(b: Seq<u8>) -> Seq<Seq<u8>> {
    split_lines(b).0
}

/// The bytes after the last newline of a byte stream.
pub open spec fn remainder(b: Seq<u8>) -> Seq<u8> {
    split_lines(b).1
}

pub open spec fn has_newline(b: Seq<u8>) -> bool {
    exists|i: int| 0 <= i < b.len() && b[i] == NEWLINE
}

/// The text of each complete line.
pub open spec fn decoded(lines: Seq<Seq<u8>>) -> Seq<Seq<char>> {
    lines.map_values(|l: Seq<u8>| lossy_text(l))
}

/// Accumulates the bytes of one connection and hands out complete lines.
pub struct LineFramer {
    pending: Vec<u8>,
}

impl View for LineFramer {
    type V = Seq<u8>;

    /// The bytes received after the last newline.
    closed spec fn view(&self) -> Seq<u8> {
        self.pending@
    }
}

impl LineFramer {
    /// Pending bytes never hold a complete line.
    pub open spec fn wf(&self) -> bool {
        !has_newline(self@)
    }

    pub fn new() -> (r: Self)
        ensures
            r.wf(),
            r@ == Seq::<u8>::empty(),
    {
        LineFramer { pending: Vec::new() }
    }

    /// The bytes received after the last newline.
    pub fn pending(&self) -> (r: &[u8])
        ensures
            r@ == self@,
    {
        self.pending.as_slice()
    }

    /// Appends `bytes` and returns, in order, the text of every line that
    /// they complete; the bytes after the last newline stay pending.
    pub fn feed(&mut self, bytes: &[u8]) -> (lines: Vec<String>)
        requires
            old(self).wf(),
        ensures
            final(self).wf(),
            final(self)@ == remainder(old(self)@ + bytes@),
            lines@.map_values(|s: String| s@) == decoded(frames(old(self)@ + bytes@)),
    {
        let ghost start = self.pending@;
        proof {
            lemma_split_without_newline(start);
            assert(start + bytes@.subrange(0, 0) == start);
        }
        let mut current: Vec<u8> = Vec::new();
        std::mem::swap(&mut current, &mut self.pending);
        let mut lines: Vec<String> = Vec::new();
        let ghost mut done: Seq<Seq<u8>> = Seq::empty();
        let mut i: usize = 0;
        while i < bytes.len()
            invariant
                i <= bytes@.len(),
                split_lines(start + bytes@.subrange(0, i as int)) == (done, current@),
                lines@.len() == done.len(),
                forall|k: int| 0 <= k < done.len() ==> (#[trigger] lines@[k])@ == lossy_text(done[k]),
                !has_newline(current@),
            decreases bytes@.len() - i,
        {
            let b = bytes[i];
            let ghost seen = start + bytes@.subrange(0, i as int);
            proof {
                assert((start + bytes@.subrange(0, i + 1)).drop_last() == seen);
                assert((start + bytes@.subrange(0, i + 1)).last() == b);
            }
            if b == NEWLINE {
                let line = decode_lossy(current.as_slice());
                lines.push(line);
                proof {
                    done = done.push(current@);
                }
                current = Vec::new();
                proof {
                    assert(!has_newline(current@));
                }
            } else {
                proof {
                    let prev = current@;
                    assert forall|k: int| 0 <= k < prev.len() + 1 implies
                        prev.push(b)[k] != NEWLINE by {
                        if k < prev.len() {
                            assert(prev.push(b)[k] == prev[k]);
                        }
                    }
                }
                current.push(b);
            }
            i = i + 1;
        }
        proof {
            assert(bytes@.subrange(0, bytes@.len() as int) == bytes@);
            assert(lines@.map_values(|s: String| s@) =~= decoded(done));
        }
        self.pending = current;
        lines
    }
}

/// Bytes without a newline form no line and stay pending as they are.
pub proof fn lemma_split_without_newline(b: Seq<u8>)
    requires
        !has_newline(b),
    ensures
        split_lines(b) == (Seq::<Seq<u8>>::empty(), b),
    decreases b.len(),
{
    if b.len() > 0 {
        let p = b.drop_last();
        assert(!has_newline(p)) by {
            if has_newline(p) {
                let k = choose|k: int| 0 <= k < p.len() && p[k] == NEWLINE;
                assert(b[k] == NEWLINE);
            }
        }
        lemma_split_without_newline(p);
        assert(b.last() != NEWLINE) by {
            assert(b[b.len() - 1] == b.last());
        }
        assert(p.push(b.last()) == b);
    }
}

/// The bytes left pending never hold a newline, and no line holds one.
pub proof fn lemma_split_parts_have_no_newline(b: Seq<u8>)
    ensures
        !has_newline(remainder(b)),
        forall|i: int| 0 <= i < frames(b).len() ==> !has_newline(#[trigger] frames(b)[i]),
    decreases b.len(),
{
    if b.len() > 0 {
        let p = b.drop_last();
        lemma_split_parts_have_no_newline(p);
        let rest = remainder(p);
        if b.last() != NEWLINE {
            assert forall|k: int| 0 <= k < rest.len() + 1 implies rest.push(b.last())[k]
                != NEWLINE by {
                if k < rest.len() {
                    assert(rest.push(b.last())[k] == rest[k]);
                }
            }
        } else {
            assert forall|i: int| 0 <= i < frames(b).len() implies !has_newline(
                #[trigger] frames(b)[i],
            ) by {
                if i < frames(p).len() {
                    assert(frames(b)[i] == frames(p)[i]);
                }
            }
        }
    }
}

/// Feeding a stream in two pieces yields the same lines, in the same order,
/// and leaves the same bytes pending as feeding it at once: the lines of
/// `a` come first, then those that the pending part of `a` and `b` complete.
pub proof fn lemma_feed_in_pieces(a: Seq<u8>, b: Seq<u8>)
    ensures
        frames(a + b) == frames(a) + frames(remainder(a) + b),
        remainder(a + b) == remainder(remainder(a) + b),
    decreases b.len(),
{
    if b.len() == 0 {
        assert(a + b == a);
        lemma_split_parts_have_no_newline(a);
        lemma_split_without_newline(remainder(a));
        assert(remainder(a) + b == remainder(a));
        assert(frames(a) + Seq::<Seq<u8>>::empty() == frames(a));
    } else {
        let b0 = b.drop_last();
        lemma_feed_in_pieces(a, b0);
        assert((a + b).drop_last() == a + b0);
        assert((a + b).last() == b.last());
        assert((remainder(a) + b).drop_last() == remainder(a) + b0);
        assert((remainder(a) + b).last() == b.last());
        if b.last() == NEWLINE {
            assert(frames(a) + frames(remainder(a) + b0).push(remainder(a + b0)) == (frames(a)
                + frames(remainder(a) + b0)).push(remainder(a + b0)));
        }
    }
}

} // verus!
