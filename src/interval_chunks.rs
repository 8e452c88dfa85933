use vstd::prelude::*;

verus! {

/// Number of windows of width `c` that cover `[s, l)`.
pub open spec fn n_chunks(l: int, c: int, s: int) -> int {
    if l <= s {
        0
    } else {
        (l - s + c - 1) / c
    }
}

/// The `i`-th window of `[s, l)` in steps of `c`.
pub open spec fn chunk_at(l: int, c: int, s: int, i: int) -> (u32, u32) {
    let start = s + i * c;
    let end = if start + c < l {
        start + c
    } else {
        l
    };
    (start as u32, end as u32)
}

/// All windows of `[s, l)` in steps of `c`, in order.
pub open spec fn chunk_seq(l: int, c: int, s: int) -> Seq<(u32, u32)> {
    Seq::new(n_chunks(l, c, s) as nat, |i: int| chunk_at(l, c, s, i))
}

/// Half-open windows `[start, end)` of at most `chunk_size` that cover
/// `[start_offset, sequence_length)`, in order.
pub struct IntervalChunks {
    seq_len: u32,
    chunk_size: u32,
    start: u32,
    curr: u32,
}

proof fn lemma_chunk_count(l: int, c: int, s: int, k: int)
    requires
        c > 0,
        s < l,
        k >= 1,
        s + (k - 1) * c < l,
        l <= s + k * c,
    ensures
        k == n_chunks(l, c, s),
{
    let x = l - s + c - 1;
    assert((k - 1) * c == k * c - c) by (nonlinear_arith);
    assert(0 <= x - k * c < c);
    vstd::arithmetic::div_mod::lemma_fundamental_div_mod_converse(x, c, k, x - k * c);
}

impl IntervalChunks {
    pub closed spec fn spec_seq_len(&self) -> u32 {
        self.seq_len
    }

    pub closed spec fn spec_chunk_size(&self) -> u32 {
        self.chunk_size
    }

    pub closed spec fn spec_start(&self) -> u32 {
        self.start
    }

    pub closed spec fn spec_position(&self) -> u32 {
        self.curr
    }

    pub fn new(sequence_length: u32, chunk_size: u32, start_offset: u32) -> (r: IntervalChunks)
        requires
            chunk_size > 0,
        ensures
            r.spec_seq_len() == sequence_length,
            r.spec_chunk_size() == chunk_size,
            r.spec_start() == start_offset,
            r.spec_position() == start_offset,
    {
        IntervalChunks {
            seq_len: sequence_length,
            chunk_size,
            start: start_offset,
            curr: start_offset,
        }
    }

    /// The next window, `None` once `sequence_length` is reached.
    pub fn next_chunk(&mut self) -> (r: Option<(u32, u32)>)
        requires
            old(self).spec_chunk_size() > 0,
        ensures
            final(self).spec_seq_len() == old(self).spec_seq_len(),
            final(self).spec_chunk_size() == old(self).spec_chunk_size(),
            final(self).spec_start() == old(self).spec_start(),
            old(self).spec_position() >= old(self).spec_seq_len() ==> r is None
                && final(self).spec_position() == old(self).spec_position(),
            old(self).spec_position() < old(self).spec_seq_len() ==> r == Some(
                chunk_at(
                    old(self).spec_seq_len() as int,
                    old(self).spec_chunk_size() as int,
                    old(self).spec_position() as int,
                    0,
                ),
            ) && final(self).spec_position() == r->Some_0.1,
    {
        if self.curr >= self.seq_len {
            return None;
        }
        let start = self.curr;
        let end = if self.seq_len - start > self.chunk_size {
            start + self.chunk_size
        } else {
            self.seq_len
        };
        self.curr = end;
        Some((start, end))
    }

    /// Start again from `start_offset`.
    pub fn reset(&mut self)
        ensures
            final(self).spec_seq_len() == old(self).spec_seq_len(),
            final(self).spec_chunk_size() == old(self).spec_chunk_size(),
            final(self).spec_start() == old(self).spec_start(),
            final(self).spec_position() == old(self).spec_start(),
    {
        self.curr = self.start;
    }

    /// Every window, from `start_offset` on.
    pub fn all_chunks(&self) -> (r: Vec<(u32, u32)>)
        requires
            self.spec_chunk_size() > 0,
        ensures
            r@ == chunk_seq(
                self.spec_seq_len() as int,
                self.spec_chunk_size() as int,
                self.spec_start() as int,
            ),
    {
        let l = self.seq_len;
        let c = self.chunk_size;
        let s = self.start;
        let mut out: Vec<(u32, u32)> = Vec::new();
        let mut curr = s;
        if curr >= l {
            assert(out@ =~= chunk_seq(l as int, c as int, s as int));
            return out;
        }
        assert(out@.len() == 0);
        assert(out@.len() * c == 0) by (nonlinear_arith)
            requires out@.len() == 0;
        while curr < l
            invariant
                l == self.seq_len,
                c == self.chunk_size,
                s == self.start,
                c > 0,
                s < l,
                curr as int == s + out@.len() * c,
                out@.len() >= 1 ==> s + (out@.len() - 1) * c < l,
                forall|i: int| 0 <= i < out@.len() ==> out@[i] == chunk_at(l as int, c as int, s as int, i),
            decreases l - curr,
        {
            let end = if l - curr > c {
                curr + c
            } else {
                l
            };
            assert(out@.len() * c + c == (out@.len() + 1) * c) by (nonlinear_arith);
            let ghost k = out@.len() as int;
            assert(chunk_at(l as int, c as int, s as int, k) == (curr, end));
            out.push((curr, end));
            assert(forall|i: int|
                0 <= i < out@.len() ==> out@[i] == chunk_at(l as int, c as int, s as int, i));
            if end == l {
                proof {
                    lemma_chunk_count(l as int, c as int, s as int, out@.len() as int);
                }
                assert(out@ =~= chunk_seq(l as int, c as int, s as int));
                return out;
            }
            curr = end;
        }
        proof {
            lemma_chunk_count(l as int, c as int, s as int, out@.len() as int);
        }
        assert(out@ =~= chunk_seq(l as int, c as int, s as int));
        out
    }
}

/// The windows of `[s, l)` in steps of `c` follow each other with no gap and
/// no overlap, start at `s`, end at `l`, are at most `c` wide, and number
/// `ceil((l - s) / c)`.
pub proof fn lemma_chunks_tile_range(l: u32, c: u32, s: u32)
    requires
        c > 0,
    ensures
        chunk_seq(l as int, c as int, s as int).len() == n_chunks(l as int, c as int, s as int),
        s < l ==> chunk_seq(l as int, c as int, s as int).len() * c >= l - s,
        s >= l ==> chunk_seq(l as int, c as int, s as int).len() == 0,
        s < l ==> chunk_seq(l as int, c as int, s as int)[0].0 == s,
        s < l ==> chunk_seq(l as int, c as int, s as int).last().1 == l,
        forall|i: int|
            0 <= i < chunk_seq(l as int, c as int, s as int).len() ==> {
                let w = #[trigger] chunk_seq(l as int, c as int, s as int)[i];
                &&& w.0 < w.1
                &&& w.1 <= w.0 + c
            },
        forall|i: int|
            0 <= i < chunk_seq(l as int, c as int, s as int).len() - 1 ==> #[trigger] chunk_seq(
                l as int,
                c as int,
                s as int,
            )[i].1 == chunk_seq(l as int, c as int, s as int)[i + 1].0,
{
    let n = n_chunks(l as int, c as int, s as int);
    let q = chunk_seq(l as int, c as int, s as int);
    if s < l {
        let x = l - s + c - 1;
        vstd::arithmetic::div_mod::lemma_fundamental_div_mod(x as int, c as int);
        assert(n == x / (c as int));
        assert(n >= 1) by {
            vstd::arithmetic::div_mod::lemma_div_pos_is_pos(x as int, c as int);
            assert(x >= c);
            vstd::arithmetic::div_mod::lemma_div_is_ordered(c as int, x as int, c as int);
            vstd::arithmetic::div_mod::lemma_div_by_self(c as int);
        }
        assert(n * c >= l - s) by {
            assert(x % (c as int) < c);
        }
        assert((n - 1) * c < l - s) by (nonlinear_arith)
            requires
                x == (n * c) + x % (c as int),
                x % (c as int) >= 0,
                x == l - s + c - 1,
        ;
        assert forall|i: int| 0 <= i < n implies (#[trigger] q[i]).0 < q[i].1 && q[i].1 <= q[i].0
            + c by {
            assert(i * c <= (n - 1) * c) by (nonlinear_arith)
                requires i <= n - 1, c > 0;
            assert(i * c >= 0) by (nonlinear_arith)
                requires i >= 0, c > 0;
        }
        assert(q.last() == chunk_at(l as int, c as int, s as int, n - 1));
        assert(s + (n - 1) * c + c == s + n * c) by (nonlinear_arith);
        assert forall|i: int| 0 <= i < n - 1 implies #[trigger] q[i].1 == q[i + 1].0 by {
            assert(s + i * c + c == s + (i + 1) * c) by (nonlinear_arith);
            assert((i + 1) * c <= (n - 1) * c) by (nonlinear_arith)
                requires i + 1 <= n - 1, c > 0;
            assert(i * c >= 0) by (nonlinear_arith)
                requires i >= 0, c > 0;
        }
    }
}

} // verus!
