//! Dealing a list of work items out to a number of workers.

use vstd::prelude::*;

verus! {

/// The parts that splitting `s` gives from step `i` of `n` on: at each step
/// but the last, the items after the first `ceil(len / (n - i))` become a
/// part and the first ones are split further; the last step takes what is left.
pub open spec fn split_from<T>(s: Seq<T>, n: int, i: int) -> Seq<Seq<T>>
    decreases n - i,
{
    if i >= n || s.len() == 0 {
        Seq::empty()
    } else if i == n - 1 {
        seq![s]
    } else {
        let size = (s.len() + (n - i) - 1) / (n - i);
        seq![s.subrange(size, s.len() as int)] + split_from(s.subrange(0, size), n, i + 1)
    }
}

/// The parts of `s` for `n` workers; none when there are no workers or no items.
pub open spec fn split_spec<T>(s: Seq<T>, n: int) -> Seq<Seq<T>> {
    if n == 0 || s.len() == 0 {
        Seq::empty()
    } else {
        split_from(s, n, 0)
    }
}

/// The parts joined, the last part first.
pub open spec fn join_reversed<T>(ps: Seq<Seq<T>>) -> Seq<T>
    decreases ps.len(),
{
    if ps.len() == 0 {
        Seq::empty()
    } else {
        join_reversed(ps.drop_first()) + ps[0]
    }
}

/// The contents of each vector.
pub open spec fn vecs_view<T>(v: Seq<Vec<T>>) -> Seq<Seq<T>> {
    Seq::new(v.len(), |i: int| v[i]@)
}

/// Splits the items into parts for `n` workers (see `split_spec`).
pub fn split_into_chunks<T>(items: Vec<T>, n: usize) -> (chunks: Vec<Vec<T>>)
    ensures
        vecs_view(chunks@) == split_spec(items@, n as int),
{
    let ghost orig = items@;
    let mut vec = items;
    if n == 0 || vec.len() == 0 {
        return Vec::new();
    }
    let ghost total = split_spec(vec@, n as int);
    let mut chunks: Vec<Vec<T>> = Vec::new();
    let mut i: usize = 0;
    while i < n
        invariant
            0 <= i <= n,
            vec@.len() > 0,
            total == split_spec(orig, n as int),
            orig == items@,
            total == vecs_view(chunks@) + split_from(vec@, n as int, i as int),
        decreases n - i,
    {
        let remaining_chunks = n - i;
        let len = vec.len();
        assert(len / remaining_chunks <= len / 1) by (nonlinear_arith)
            requires
                remaining_chunks >= 1,
        ;
        assert(len / remaining_chunks < len || remaining_chunks == 1) by (nonlinear_arith)
            requires
                remaining_chunks >= 1,
                len >= 1,
        ;
        let current_chunk_size = len / remaining_chunks + if len % remaining_chunks == 0 { 0 } else { 1 };
        proof {
            assert(current_chunk_size == (len + remaining_chunks - 1) / (remaining_chunks as int)) by (nonlinear_arith)
                requires
                    remaining_chunks > 0,
                    current_chunk_size == len / remaining_chunks + if len % remaining_chunks == 0 { 0int } else { 1int },
            ;
            assert(1 <= current_chunk_size <= len) by (nonlinear_arith)
                requires
                    remaining_chunks > 0,
                    len > 0,
                    current_chunk_size == len / remaining_chunks + if len % remaining_chunks == 0 { 0int } else { 1int },
            ;
        }
        if i == n - 1 {
            let ghost before = vecs_view(chunks@);
            let ghost last = vec@;
            assert(split_from(last, n as int, i as int) == seq![last]);
            chunks.push(vec);
            proof {
                assert(vecs_view(chunks@) =~= before + seq![last]);
                assert(vecs_view(chunks@) == total);
            }
            return chunks;
        }
        let ghost before = vecs_view(chunks@);
        let ghost old_vec = vec@;
        let chunk = vec.split_off(current_chunk_size);
        chunks.push(chunk);
        proof {
            assert(vecs_view(chunks@) =~= before.push(old_vec.subrange(current_chunk_size as int, old_vec.len() as int)));
            assert(vec@ == old_vec.subrange(0, current_chunk_size as int));
            let rest = split_from(vec@, n as int, i + 1);
            assert(before + (seq![old_vec.subrange(current_chunk_size as int, old_vec.len() as int)] + rest)
                =~= vecs_view(chunks@) + rest);
        }
        i = i + 1;
    }
    proof {
        assert(split_from(vec@, n as int, i as int) =~= Seq::<Seq<T>>::empty());
        assert(vecs_view(chunks@) + Seq::<Seq<T>>::empty() =~= vecs_view(chunks@));
    }
    chunks
}

/// Splitting loses and repeats no item: the parts, joined last first, are
/// the items; and there is one part per worker once there are items.
pub proof fn lemma_split_partitions<T>(s: Seq<T>, n: int)
    requires
        n >= 0,
    ensures
        join_reversed(split_spec(s, n)) == s || s.len() == 0 || n == 0,
        s.len() > 0 && n > 0 ==> split_spec(s, n).len() == n,
        s.len() == 0 || n == 0 ==> split_spec(s, n).len() == 0,
{
    if n > 0 && s.len() > 0 {
        lemma_split_from(s, n, 0);
    }
}

proof fn lemma_split_from<T>(s: Seq<T>, n: int, i: int)
    requires
        0 <= i < n,
        s.len() > 0,
    ensures
        join_reversed(split_from(s, n, i)) == s,
        split_from(s, n, i).len() == n - i,
    decreases n - i,
{
    if i == n - 1 {
        let ps = split_from(s, n, i);
        assert(ps.drop_first() =~= Seq::<Seq<T>>::empty());
        assert(join_reversed(ps.drop_first()) == Seq::<T>::empty());
        assert(join_reversed(ps) =~= s);
    } else {
        let r = n - i;
        let size = (s.len() + r - 1) / r;
        assert(1 <= size <= s.len()) by (nonlinear_arith)
            requires
                r > 0,
                s.len() > 0,
                size == (s.len() + r - 1) / r,
        ;
        let head = s.subrange(0, size);
        let tail = s.subrange(size, s.len() as int);
        lemma_split_from(head, n, i + 1);
        let ps = split_from(s, n, i);
        assert(ps.drop_first() =~= split_from(head, n, i + 1));
        assert(join_reversed(ps) =~= head + tail);
        assert(head + tail =~= s);
    }
}

} // verus!
