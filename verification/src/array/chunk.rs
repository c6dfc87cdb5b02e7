//! Splitting a sequence into consecutive fixed-size chunks.

use vstd::prelude::*;

verus! {

/// The single failure condition of the library: an argument outside the
/// domain of the operation that received it.
#[derive(Debug, PartialEq, Eq, Structural)]
pub enum Error {
    InvalidArgument,
}

/// `xs` cut into consecutive pieces of exactly `size` elements, except that
/// the final piece holds whatever remainder is left (between 1 and `size`
/// elements). An empty `xs` yields no pieces at all.
pub open spec fn chunked<T>(xs: Seq<T>, size: nat) -> Seq<Seq<T>>
    recommends
        size > 0,
    decreases xs.len(),
{
    if size == 0 || xs.len() == 0 {
        Seq::empty()
    } else if xs.len() <= size {
        seq![xs]
    } else {
        seq![xs.take(size as int)] + chunked(xs.skip(size as int), size)
    }
}

/// Chunking concatenates: if `xs` is made of whole pieces (its length is a
/// multiple of `size`), the chunks of `xs + ys` are the chunks of `xs`
/// followed by the chunks of `ys`.
pub proof fn lemma_chunked_append<T>(xs: Seq<T>, ys: Seq<T>, size: nat)
    requires
        size > 0,
        xs.len() % size == 0,
    ensures
        chunked(xs + ys, size) == chunked(xs, size) + chunked(ys, size),
    decreases xs.len(),
{
    if xs.len() == 0 {
        assert(xs + ys =~= ys);
        assert(chunked(xs, size) + chunked(ys, size) =~= chunked(ys, size));
    } else {
        assert(xs.len() >= size) by {
            if xs.len() < size {
                vstd::arithmetic::div_mod::lemma_small_mod(xs.len(), size);
            }
        }
        let rest = xs.skip(size as int);
        assert(rest.len() % size == 0) by {
            vstd::arithmetic::div_mod::lemma_mod_sub_multiples_vanish(
                xs.len() as int,
                size as int,
            );
        }
        if ys.len() == 0 {
            assert(xs + ys =~= xs);
            assert(chunked(ys, size) =~= Seq::<Seq<T>>::empty());
            assert(chunked(xs, size) + chunked(ys, size) =~= chunked(xs, size));
        } else {
            assert((xs + ys).len() > size);
            assert((xs + ys).take(size as int) =~= xs.take(size as int));
            assert((xs + ys).skip(size as int) =~= rest + ys);
            lemma_chunked_append(rest, ys, size);
            if xs.len() == size {
                assert(rest.len() == 0);
                assert(rest + ys =~= ys);
                assert(xs.take(size as int) =~= xs);
                assert(chunked(xs + ys, size) == seq![xs] + chunked(ys, size));
                assert(chunked(xs, size) == seq![xs]);
            } else {
                assert(chunked(xs, size) == seq![xs.take(size as int)] + chunked(rest, size));
                assert(chunked(xs + ys, size) == seq![xs.take(size as int)] + (chunked(
                    rest,
                    size,
                ) + chunked(ys, size)));
                assert(seq![xs.take(size as int)] + (chunked(rest, size) + chunked(ys, size))
                    =~= (seq![xs.take(size as int)] + chunked(rest, size)) + chunked(ys, size));
            }
        }
    }
}

/// Order-preserving reconstruction: concatenating the chunks of `xs` gives
/// back `xs` itself; every chunk except possibly the last has length exactly
/// `size`; the last chunk has between 1 and `size` elements; and there are no
/// chunks if and only if `xs` is empty.
pub proof fn lemma_chunked_reconstructs<T>(xs: Seq<T>, size: nat)
    requires
        size > 0,
    ensures
        chunked(xs, size).flatten() == xs,
        forall|i: int|
            0 <= i < chunked(xs, size).len() - 1 ==> (#[trigger] chunked(xs, size)[i]).len()
                == size,
        chunked(xs, size).len() > 0 ==> 1 <= chunked(xs, size).last().len() <= size,
        chunked(xs, size).len() == 0 <==> xs.len() == 0,
    decreases xs.len(),
{
    if xs.len() == 0 {
        assert(chunked(xs, size) =~= Seq::<Seq<T>>::empty());
        assert(chunked(xs, size).flatten() =~= xs);
    } else if xs.len() <= size {
        let cs = chunked(xs, size);
        assert(cs == seq![xs]);
        cs.lemma_flatten_one_element();
    } else {
        let rest = xs.skip(size as int);
        let cs = chunked(xs, size);
        lemma_chunked_reconstructs(rest, size);
        assert(cs.first() == xs.take(size as int));
        assert(cs.drop_first() =~= chunked(rest, size));
        assert(cs.flatten() == xs.take(size as int) + chunked(rest, size).flatten());
        assert(xs.take(size as int) + rest =~= xs);
        assert forall|i: int| 0 <= i < cs.len() - 1 implies (#[trigger] cs[i]).len() == size by {
            if i > 0 {
                assert(cs[i] == chunked(rest, size)[i - 1]);
            } else {
                assert(cs[0] == xs.take(size as int));
            }
        }
        assert(cs.last() == chunked(rest, size).last());
    }
}

/// Splits `items` into consecutive chunks of at most `size` items each,
/// preserving order; the final chunk holds the remainder. Rejects `size == 0`
/// before doing any work.
pub fn chunk<T>(items: Vec<T>, size: usize) -> (r: Result<Vec<Vec<T>>, Error>)
    ensures
        size == 0 ==> r == Result::<Vec<Vec<T>>, Error>::Err(Error::InvalidArgument),
        size > 0 ==> (r matches Ok(cs) && cs@.map_values(|c: Vec<T>| c@) == chunked(
            items@,
            size as nat,
        )),
{
    if size == 0 {
        return Err(Error::InvalidArgument);
    }
    let ghost xs = items@;
    let mut chunks: Vec<Vec<T>> = Vec::new();
    let mut part: Vec<T> = Vec::new();
    for item in it: items.into_iter()
        invariant
            size > 0,
            it.seq() == xs,
            part@.len() < size,
            part@.len() <= it.index(),
            (it.index() - part@.len()) % (size as int) == 0,
            chunks@.map_values(|c: Vec<T>| c@) == chunked(
                xs.take(it.index() - part@.len()),
                size as nat,
            ),
            part@ == xs.subrange(it.index() - part@.len(), it.index() as int),
    {
        let ghost done = it.index() - part@.len();
        part.push(item);
        if part.len() == size {
            proof {
                let complete = xs.take(done);
                let full = part@;
                vstd::arithmetic::div_mod::lemma_mod_add_multiples_vanish(done, size as int);
                lemma_chunked_append(complete, full, size as nat);
                assert(complete + full =~= xs.take(done + size));
                assert(chunked(full, size as nat) == seq![full]);
                assert(chunks@.push(part).map_values(|c: Vec<T>| c@) =~= chunks@.map_values(
                    |c: Vec<T>| c@,
                ).push(full));
            }
            chunks.push(part);
            part = Vec::new();
        }
        proof {
            assert(part@ =~= xs.subrange(it.index() + 1 - part@.len(), it.index() + 1));
        }
    }
    if part.len() > 0 {
        proof {
            let complete = xs.take(xs.len() - part@.len());
            lemma_chunked_append(complete, part@, size as nat);
            assert(complete + part@ =~= xs);
            assert(chunked(part@, size as nat) == seq![part@]);
            assert(chunks@.push(part).map_values(|c: Vec<T>| c@) =~= chunks@.map_values(
                |c: Vec<T>| c@,
            ).push(part@));
        }
        chunks.push(part);
    } else {
        proof {
            assert(xs.take(xs.len() - part@.len()) =~= xs);
        }
    }
    Ok(chunks)
}

/// Fluent form of [`chunk`]: lets a sequence be split with `items.chunk(n)`.
pub trait ChunkExt<T>: View<V = Seq<T>> + Sized {
    /// Splits into consecutive chunks of at most `size` items, preserving
    /// order; rejects `size == 0`.
    fn chunk(self, size: usize) -> (r: Result<Vec<Vec<T>>, Error>)
        ensures
            size == 0 ==> r == Result::<Vec<Vec<T>>, Error>::Err(Error::InvalidArgument),
            size > 0 ==> (r matches Ok(cs) && cs@.map_values(|c: Vec<T>| c@) == chunked(
                self@,
                size as nat,
            )),
    ;
}

impl<T> ChunkExt<T> for Vec<T> {
    fn chunk(self, size: usize) -> (r: Result<Vec<Vec<T>>, Error>) {
        chunk(self, size)
    }
}

} // verus!
