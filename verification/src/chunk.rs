//! Chunking: gathering an arbitrarily split input stream into fixed-width
//! chunks, one per output line.
//!
//! A single read from a stream may hand back fewer bytes than a line needs,
//! so the encoder cannot cut a line per read: it must keep filling until a
//! full chunk is there or the stream ends. [`Chunker`] holds the partial
//! chunk between reads; however the input is split, the chunks that come
//! out are the same.

use vstd::prelude::*;

verus! {

/// All chunks laid end to end.
pub open spec fn concat_all(cs: Seq<Seq<u8>>) -> Seq<u8>
    decreases cs.len(),
{
    if cs.len() == 0 {
        Seq::empty()
    } else {
        cs[0] + concat_all(cs.skip(1))
    }
}

pub proof fn lemma_concat_all_push(cs: Seq<Seq<u8>>, c: Seq<u8>)
    ensures
        concat_all(cs.push(c)) == concat_all(cs) + c,
    decreases cs.len(),
{
    if cs.len() == 0 {
        assert(cs.push(c)[0] == c);
        assert(cs.push(c).skip(1) =~~= Seq::<Seq<u8>>::empty());
        assert(concat_all(Seq::<Seq<u8>>::empty()) =~= Seq::<u8>::empty());
        assert(concat_all(cs.push(c)) == c + concat_all(Seq::<Seq<u8>>::empty()));
        assert(concat_all(cs.push(c)) =~= c);
        assert(concat_all(cs) + c =~= c);
    } else {
        assert(cs.push(c).skip(1) =~~= cs.skip(1).push(c));
        lemma_concat_all_push(cs.skip(1), c);
        assert(concat_all(cs.push(c)) == cs[0] + (concat_all(cs.skip(1)) + c));
        assert(cs[0] + (concat_all(cs.skip(1)) + c) =~= (cs[0] + concat_all(cs.skip(1))) + c);
    }
}

pub proof fn lemma_concat_all_add(a: Seq<Seq<u8>>, b: Seq<Seq<u8>>)
    ensures
        concat_all(a + b) == concat_all(a) + concat_all(b),
    decreases a.len(),
{
    if a.len() == 0 {
        assert(a + b =~~= b);
        assert(concat_all(a) + concat_all(b) =~= concat_all(b));
    } else {
        assert((a + b).skip(1) =~~= a.skip(1) + b);
        lemma_concat_all_add(a.skip(1), b);
        assert((a + b)[0] == a[0]);
        assert(a[0] + (concat_all(a.skip(1)) + concat_all(b)) =~= (a[0] + concat_all(a.skip(1)))
            + concat_all(b));
    }
}

/// What gathering `buf` into `width`-byte chunks yields: the full chunks in
/// order, and the partial remainder.
pub open spec fn chunk_model(width: nat, buf: Seq<u8>) -> (Seq<Seq<u8>>, Seq<u8>)
    decreases buf.len(),
{
    if width == 0 || buf.len() < width {
        (Seq::empty(), buf)
    } else {
        let rec = chunk_model(width, buf.skip(width as int));
        (seq![buf.take(width as int)] + rec.0, rec.1)
    }
}

/// Every chunk of the model is full width, the chunks and the remainder
/// together are exactly the input, and the remainder is shorter than one
/// chunk.
pub proof fn lemma_chunk_model_props(width: nat, buf: Seq<u8>)
    requires
        width >= 1,
    ensures
        forall|i: int|
            0 <= i < chunk_model(width, buf).0.len() ==> (#[trigger] chunk_model(width, buf).0[i]).len()
                == width,
        concat_all(chunk_model(width, buf).0) + chunk_model(width, buf).1 == buf,
        chunk_model(width, buf).1.len() < width,
    decreases buf.len(),
{
    if buf.len() < width {
        assert(concat_all(Seq::<Seq<u8>>::empty()) + buf =~= buf);
    } else {
        let rec = chunk_model(width, buf.skip(width as int));
        lemma_chunk_model_props(width, buf.skip(width as int));
        let m = chunk_model(width, buf);
        assert forall|i: int| 0 <= i < m.0.len() implies (#[trigger] m.0[i]).len() == width by {
            if i == 0 {
                assert(m.0[0] == buf.take(width as int));
            } else {
                assert(m.0[i] == rec.0[i - 1]);
            }
        }
        assert(m.0.skip(1) =~~= rec.0);
        assert(concat_all(m.0) == buf.take(width as int) + concat_all(rec.0));
        assert((buf.take(width as int) + concat_all(rec.0)) + rec.1 =~= buf.take(width as int) + (
        concat_all(rec.0) + rec.1));
        assert(buf.take(width as int) + buf.skip(width as int) =~= buf);
    }
}

/// The model is the only way to cut an input into full-width chunks in
/// order with a short remainder.
pub proof fn lemma_chunk_model_unique(width: nat, cs: Seq<Seq<u8>>, rest: Seq<u8>)
    requires
        width >= 1,
        forall|i: int| 0 <= i < cs.len() ==> (#[trigger] cs[i]).len() == width,
        rest.len() < width,
    ensures
        chunk_model(width, concat_all(cs) + rest) == (cs, rest),
    decreases cs.len(),
{
    let total = concat_all(cs) + rest;
    if cs.len() == 0 {
        assert(total =~= rest);
        assert(chunk_model(width, total) == (Seq::<Seq<u8>>::empty(), rest));
        assert(cs =~~= Seq::<Seq<u8>>::empty());
    } else {
        assert(cs[0].len() == width);
        assert(total == (cs[0] + concat_all(cs.skip(1))) + rest);
        assert(total =~= cs[0] + (concat_all(cs.skip(1)) + rest));
        let total2 = concat_all(cs.skip(1)) + rest;
        assert(total.len() >= width);
        assert(total.take(width as int) =~= cs[0]);
        assert(total.skip(width as int) =~= total2);
        assert forall|i: int| 0 <= i < cs.skip(1).len() implies (#[trigger] cs.skip(1)[i]).len()
            == width by {
            assert(cs.skip(1)[i] == cs[i + 1]);
        }
        lemma_chunk_model_unique(width, cs.skip(1), rest);
        assert(chunk_model(width, total).0 =~~= seq![cs[0]] + cs.skip(1));
        assert(seq![cs[0]] + cs.skip(1) =~~= cs);
    }
}

/// However an input is split into successive feeds, the chunks that come
/// out, and the remainder left over, are those of the whole input at once:
/// a stream read one byte at a time still yields exactly the full-width
/// chunks of the stream.
pub proof fn lemma_chunking_split(width: nat, buf: Seq<u8>, a: Seq<u8>, b: Seq<u8>)
    requires
        width >= 1,
    ensures
        ({
            let first = chunk_model(width, buf + a);
            let second = chunk_model(width, first.1 + b);
            let whole = chunk_model(width, buf + (a + b));
            first.0 + second.0 == whole.0 && second.1 == whole.1
        }),
{
    let first = chunk_model(width, buf + a);
    let second = chunk_model(width, first.1 + b);
    lemma_chunk_model_props(width, buf + a);
    lemma_chunk_model_props(width, first.1 + b);
    assert forall|i: int| 0 <= i < (first.0 + second.0).len() implies (#[trigger] (first.0
        + second.0)[i]).len() == width by {
        if i < first.0.len() {
            assert((first.0 + second.0)[i] == first.0[i]);
        } else {
            assert((first.0 + second.0)[i] == second.0[i - first.0.len()]);
        }
    }
    lemma_concat_all_add(first.0, second.0);
    assert(concat_all(first.0 + second.0) + second.1 =~= buf + (a + b)) by {
        assert(concat_all(first.0) + (concat_all(second.0) + second.1) == concat_all(first.0) + (
        first.1 + b));
        assert((concat_all(first.0) + first.1) + b =~= concat_all(first.0) + (first.1 + b));
        assert(concat_all(first.0 + second.0) + second.1 =~= concat_all(first.0) + (concat_all(
            second.0,
        ) + second.1));
    }
    lemma_chunk_model_unique(width, first.0 + second.0, second.1);
}

/// Gathers stream reads of any size into full `width`-byte chunks, keeping
/// the partial chunk between reads.
pub struct Chunker {
    pub width: usize,
    pub buf: Vec<u8>,
}

impl Chunker {
    /// The held partial chunk is always shorter than one full chunk.
    pub open spec fn wf(self) -> bool {
        self.width >= 1 && self.buf@.len() < self.width
    }

    /// A fresh chunker holding nothing.
    pub fn new(width: usize) -> (c: Chunker)
        requires
            width >= 1,
        ensures
            c.wf(),
            c.width == width,
            c.buf@ == Seq::<u8>::empty(),
    {
        Chunker { width, buf: Vec::new() }
    }

    /// Takes the next stretch of input, however short, and hands back every
    /// chunk it completes, keeping the remainder.
    pub fn feed(&mut self, data: &Vec<u8>) -> (out: Vec<Vec<u8>>)
        requires
            old(self).wf(),
        ensures
            final(self).wf(),
            final(self).width == old(self).width,
            out.deep_view() == chunk_model(old(self).width as nat, old(self).buf@ + data@).0,
            final(self).buf@ == chunk_model(old(self).width as nat, old(self).buf@ + data@).1,
    {
        let mut out: Vec<Vec<u8>> = Vec::new();
        let mut i: usize = 0;
        proof {
            assert(out.deep_view() =~~= Seq::<Seq<u8>>::empty());
            assert(concat_all(out.deep_view()) + self.buf@ =~= old(self).buf@ + data@.take(0));
        }
        while i < data.len()
            invariant
                0 <= i <= data@.len(),
                self.width == old(self).width,
                self.width >= 1,
                self.buf@.len() < self.width,
                forall|j: int|
                    0 <= j < out.deep_view().len() ==> (#[trigger] out.deep_view()[j]).len()
                        == self.width,
                concat_all(out.deep_view()) + self.buf@ == old(self).buf@ + data@.take(i as int),
            decreases data@.len() - i,
        {
            self.buf.push(data[i]);
            proof {
                assert(old(self).buf@ + data@.take(i + 1) =~= (old(self).buf@ + data@.take(
                    i as int,
                )).push(data@[i as int]));
                assert(concat_all(out.deep_view()) + self.buf@ =~= (concat_all(out.deep_view())
                    + self.buf@.drop_last()).push(data@[i as int]));
            }
            if self.buf.len() == self.width {
                let full = crate::decode::copy_bytes(&self.buf);
                self.buf.clear();
                let ghost prev = out.deep_view();
                out.push(full);
                proof {
                    assert(out.deep_view() =~~= prev.push(full@));
                    lemma_concat_all_push(prev, full@);
                    assert(concat_all(out.deep_view()) + self.buf@ =~= (concat_all(prev) + full@));
                }
            }
            i = i + 1;
        }
        proof {
            assert(data@.take(i as int) =~= data@);
            lemma_chunk_model_unique(self.width as nat, out.deep_view(), self.buf@);
        }
        out
    }

    /// Ends the stream: hands back the final short chunk, if any bytes are
    /// held.
    pub fn finish(&mut self) -> (r: Option<Vec<u8>>)
        requires
            old(self).wf(),
        ensures
            final(self).wf(),
            final(self).width == old(self).width,
            final(self).buf@ == Seq::<u8>::empty(),
            match r {
                Some(c) => c@ == old(self).buf@ && 1 <= c@.len() < old(self).width,
                None => old(self).buf@.len() == 0,
            },
    {
        if self.buf.len() == 0 {
            None
        } else {
            let last = crate::decode::copy_bytes(&self.buf);
            self.buf.clear();
            Some(last)
        }
    }
}

} // verus!
