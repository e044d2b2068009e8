//! The chunking core: partitioning a finite sequence of text lines into
//! consecutive chunks of `lines_per_chunk` lines, numbered from zero, the
//! last chunk holding the remainder. An empty source still yields one empty
//! chunk at index zero.

use vstd::prelude::*;
use vstd::arithmetic::div_mod::{
    lemma_div_is_ordered, lemma_fundamental_div_mod, lemma_fundamental_div_mod_converse,
};
use vstd::arithmetic::mul::lemma_mul_inequality;
use vstd::math::min;
use vstd::string::{StrSliceExecFns, StringSliceAdditionalSpecFns};

verus! {

/// Lines of one FASTQ record.
pub const LINES_PER_READ: usize = 4;

/// The line threshold of one chunk file: `records_per_chunk` records of
/// four lines each.
pub fn lines_per_chunk_of(records_per_chunk: usize) -> (t: usize)
    requires
        1 <= records_per_chunk,
        records_per_chunk * 4 <= usize::MAX,
    ensures
        t == records_per_chunk * 4,
{
    records_per_chunk * LINES_PER_READ
}

/// How many chunk files a source of `l` lines yields at `t` lines per
/// chunk: one file per started chunk, and a single empty file when the
/// source is empty.
pub open spec fn spec_file_count(l: nat, t: nat) -> nat
    recommends
        1 <= t,
{
    if l == 0 {
        1
    } else {
        (((l - 1) / (t as int)) + 1) as nat
    }
}

/// The lines of chunk `i`: the `i`-th consecutive run of at most `t` lines.
pub open spec fn spec_chunk(lines: Seq<Seq<char>>, t: nat, i: int) -> Seq<Seq<char>>
    recommends
        1 <= t,
        0 <= i < spec_file_count(lines.len(), t),
{
    lines.subrange(i * t, min((i + 1) * t, lines.len() as int))
}

/// All chunk files for one source, in chunk-index order.
pub open spec fn spec_chunks(lines: Seq<Seq<char>>, t: nat) -> Seq<Seq<Seq<char>>>
    recommends
        1 <= t,
{
    Seq::new(spec_file_count(lines.len(), t), |i: int| spec_chunk(lines, t, i))
}

/// The shape of the chunking: a source of `l > 0` lines yields
/// `(l + t - 1) / t` files (one file when `l == 0`); every file but the
/// last holds exactly `t` lines; the last holds the remainder — `t` itself
/// when `l` is a positive multiple of `t`, nothing when the source is empty.
pub proof fn lemma_chunk_shapes(lines: Seq<Seq<char>>, t: nat)
    requires
        1 <= t,
    ensures
        spec_chunks(lines, t).len() == spec_file_count(lines.len(), t),
        1 <= spec_file_count(lines.len(), t),
        lines.len() > 0 ==> spec_file_count(lines.len(), t) == ((lines.len() + t - 1) as int) / (
        t as int),
        forall|i: int|
            0 <= i < spec_file_count(lines.len(), t) - 1 ==> (#[trigger] spec_chunks(
                lines,
                t,
            )[i]).len() == t,
        lines.len() == 0 ==> spec_chunks(lines, t).last().len() == 0,
        lines.len() > 0 && lines.len() % t == 0 ==> spec_chunks(lines, t).last().len() == t,
        lines.len() % t != 0 ==> spec_chunks(lines, t).last().len() == lines.len() % t,
{
    let l = lines.len() as int;
    let ti = t as int;
    let c = spec_file_count(lines.len(), t) as int;
    if l == 0 {
        assert(spec_chunks(lines, t).last() =~= lines.subrange(0, 0));
    } else {
        lemma_fundamental_div_mod(l - 1, ti);
        let q = (l - 1) / ti;
        let r = (l - 1) % ti;
        assert(l - 1 == ti * q + r);
        assert(ti * q == q * ti) by (nonlinear_arith);
        assert((q + 1) * ti == q * ti + ti) by (nonlinear_arith);
        assert(0 <= q * ti) by (nonlinear_arith)
            requires
                0 <= q,
                0 <= ti,
        ;
        lemma_fundamental_div_mod_converse(l + ti - 1, ti, q + 1, r);
        assert(c == q + 1);
        assert forall|i: int| 0 <= i < c - 1 implies (#[trigger] spec_chunks(lines, t)[i]).len()
            == t by {
            lemma_mul_inequality(i + 1, q, ti);
            assert((i + 1) * ti <= q * ti);
            assert((i + 1) * ti == i * ti + ti) by (nonlinear_arith);
            assert(0 <= i * ti) by (nonlinear_arith)
                requires
                    0 <= i,
                    0 <= ti,
            ;
            assert(spec_chunks(lines, t)[i] == spec_chunk(lines, t, i));
        }
        // The last chunk spans from q * t to the end of the source.
        assert(spec_chunks(lines, t).last() == spec_chunk(lines, t, q));
        assert(spec_chunks(lines, t).last().len() == l - q * ti);
        if r + 1 == ti {
            lemma_fundamental_div_mod_converse(l, ti, q + 1, 0);
            assert(l % ti == 0);
            assert(l - q * ti == ti);
        } else {
            lemma_fundamental_div_mod_converse(l, ti, q, r + 1);
            assert(l % ti == r + 1);
            assert(l - q * ti == r + 1);
        }
    }
}

/// Appending one line to the source either starts a fresh chunk holding
/// only that line (when the line count so far is a positive multiple of the
/// threshold) or extends the chunk that is open.
pub proof fn lemma_chunks_snoc(pre: Seq<Seq<char>>, x: Seq<char>, t: nat)
    requires
        1 <= t,
    ensures
        (pre.len() > 0 && pre.len() % t == 0) ==> spec_chunks(pre.push(x), t) == spec_chunks(
            pre,
            t,
        ).push(seq![x]),
        !(pre.len() > 0 && pre.len() % t == 0) ==> spec_chunks(pre.push(x), t) == spec_chunks(
            pre,
            t,
        ).update((spec_chunks(pre, t).len() - 1) as int, spec_chunks(pre, t).last().push(x)),
{
    let l = pre.len() as int;
    let ti = t as int;
    let post = pre.push(x);
    if l == 0 {
        assert(0 * ti == 0) by (nonlinear_arith);
        assert(1 * ti == ti) by (nonlinear_arith);
        assert(spec_chunks(pre, t).last() =~= pre.subrange(0, 0));
        assert(spec_chunk(post, t, 0) =~= seq![x]);
        assert(spec_chunks(pre, t).last().push(x) =~= seq![x]);
        assert(spec_chunks(post, t) =~= spec_chunks(pre, t).update(
            0,
            spec_chunks(pre, t).last().push(x),
        ));
    } else {
        lemma_fundamental_div_mod(l - 1, ti);
        let q = (l - 1) / ti;
        let r = (l - 1) % ti;
        assert(ti * q == q * ti) by (nonlinear_arith);
        assert((q + 1) * ti == q * ti + ti) by (nonlinear_arith);
        assert((q + 2) * ti == q * ti + 2 * ti) by (nonlinear_arith);
        assert(0 <= q * ti) by (nonlinear_arith)
            requires
                0 <= q,
                0 <= ti,
        ;
        if r + 1 == ti {
            // l is a positive multiple of t: the new line opens chunk q + 1.
            lemma_fundamental_div_mod_converse(l, ti, q + 1, 0);
            lemma_fundamental_div_mod_converse(l + 1 - 1, ti, q + 1, 0);
            assert(spec_file_count(post.len(), t) == q + 2);
            assert(spec_chunk(post, t, q + 1) =~= seq![x]);
            assert forall|i: int| 0 <= i <= q implies #[trigger] spec_chunk(post, t, i)
                == spec_chunk(pre, t, i) by {
                lemma_mul_inequality(i + 1, q + 1, ti);
                assert((i + 1) * ti == i * ti + ti) by (nonlinear_arith);
                assert(0 <= i * ti) by (nonlinear_arith)
                    requires
                        0 <= i,
                        0 <= ti,
                ;
                assert(spec_chunk(post, t, i) =~= spec_chunk(pre, t, i));
            }
            assert(spec_chunks(post, t) =~= spec_chunks(pre, t).push(seq![x]));
        } else {
            // The open chunk q still has room: the new line extends it.
            lemma_fundamental_div_mod_converse(l, ti, q, r + 1);
            lemma_fundamental_div_mod_converse(l + 1 - 1, ti, q, r + 1);
            assert(spec_file_count(post.len(), t) == q + 1);
            assert(spec_chunk(post, t, q) =~= spec_chunk(pre, t, q).push(x));
            assert forall|i: int| 0 <= i < q implies #[trigger] spec_chunk(post, t, i)
                == spec_chunk(pre, t, i) by {
                lemma_mul_inequality(i + 1, q, ti);
                assert((i + 1) * ti == i * ti + ti) by (nonlinear_arith);
                assert(0 <= i * ti) by (nonlinear_arith)
                    requires
                        0 <= i,
                        0 <= ti,
                ;
                assert(spec_chunk(post, t, i) =~= spec_chunk(pre, t, i));
            }
            assert(spec_chunks(post, t) =~= spec_chunks(pre, t).update(
                q,
                spec_chunks(pre, t).last().push(x),
            ));
        }
    }
}

/// Concatenating all chunk files in chunk-index order reproduces the
/// source lines exactly: nothing is lost, duplicated or reordered.
pub proof fn lemma_concat_round_trip(lines: Seq<Seq<char>>, t: nat)
    requires
        1 <= t,
    ensures
        spec_chunks(lines, t).flatten() == lines,
    decreases lines.len(),
{
    lemma_chunk_shapes(lines, t);
    let cl = spec_chunks(lines, t);
    cl.lemma_flatten_and_flatten_alt_are_equivalent();
    if lines.len() == 0 {
        assert(cl[0] =~= Seq::<Seq<char>>::empty());
        cl.lemma_flatten_one_element();
        assert(cl.flatten() =~= lines);
    } else {
        let init = lines.drop_last();
        let x = lines.last();
        assert(lines =~= init.push(x));
        lemma_chunk_shapes(init, t);
        lemma_concat_round_trip(init, t);
        lemma_chunks_snoc(init, x, t);
        let ci = spec_chunks(init, t);
        ci.lemma_flatten_and_flatten_alt_are_equivalent();
        if init.len() > 0 && init.len() % t == 0 {
            assert(cl == ci.push(seq![x]));
            assert(cl.drop_last() =~= ci);
            assert(cl.flatten_alt() == cl.drop_last().flatten_alt() + cl.last());
            assert(cl.flatten_alt() =~= init + seq![x]);
        } else {
            let y = ci.last().push(x);
            assert(cl == ci.update(ci.len() - 1, y));
            assert(cl.drop_last() =~= ci.drop_last());
            assert(cl.last() == y);
            assert(cl.flatten_alt() == cl.drop_last().flatten_alt() + cl.last());
            assert(ci.flatten_alt() == ci.drop_last().flatten_alt() + ci.last());
            assert(cl.flatten_alt() =~= (ci.drop_last().flatten_alt() + ci.last()) + seq![x]);
            assert(cl.flatten_alt() =~= init + seq![x]);
        }
        assert(cl.flatten() =~= lines);
    }
}

/// Line `j` of the source lands in chunk `j / t`, at offset `j % t` within
/// it: the partition keeps input order, with no overlap and no reordering.
pub proof fn lemma_line_placement(lines: Seq<Seq<char>>, t: nat, j: int)
    requires
        1 <= t,
        0 <= j < lines.len(),
    ensures
        j / (t as int) < spec_chunks(lines, t).len(),
        spec_chunks(lines, t)[j / (t as int)][j % (t as int)] == lines[j],
{
    let ti = t as int;
    let l = lines.len() as int;
    lemma_fundamental_div_mod(j, ti);
    let q = j / ti;
    let r = j % ti;
    assert(ti * q == q * ti) by (nonlinear_arith);
    assert((q + 1) * ti == q * ti + ti) by (nonlinear_arith);
    assert(0 <= q * ti) by (nonlinear_arith)
        requires
            0 <= q,
            0 <= ti,
    ;
    lemma_div_is_ordered(j, l - 1, ti);
    assert(spec_chunk(lines, t, q)[r] == lines[q * ti + r]);
}

/// Chunking sees only the logical line sequence: two sources with the same
/// lines — say, a plain-text file and a gzip-compressed copy after
/// decompression — chunk into identical output.
pub proof fn lemma_chunks_content_only(
    plain_lines: Seq<Seq<char>>,
    decoded_lines: Seq<Seq<char>>,
    t: nat,
)
    requires
        plain_lines == decoded_lines,
    ensures
        spec_chunks(plain_lines, t) == spec_chunks(decoded_lines, t),
{
}

/// An empty source still yields exactly one chunk file, at index zero, and
/// that file is empty.
pub proof fn lemma_empty_source(t: nat)
    requires
        1 <= t,
    ensures
        spec_chunks(Seq::<Seq<char>>::empty(), t).len() == 1,
        spec_chunks(Seq::<Seq<char>>::empty(), t)[0] == Seq::<Seq<char>>::empty(),
{
    assert(spec_chunks(Seq::<Seq<char>>::empty(), t)[0] =~= Seq::<Seq<char>>::empty());
}

/// The two mates are chunked independently: each mate's chunk count is a
/// function of its own line count and the shared threshold alone, however
/// the other mate's lines read.
pub proof fn lemma_mates_independent(r1_lines: Seq<Seq<char>>, r2_lines: Seq<Seq<char>>, t: nat)
    requires
        1 <= t,
    ensures
        spec_chunks(r1_lines, t).len() == spec_file_count(r1_lines.len(), t),
        spec_chunks(r2_lines, t).len() == spec_file_count(r2_lines.len(), t),
{
}

/// Streaming chunk state: which chunk file is open and how many lines it
/// already holds. The ghost `lines` field records every line pushed so far
/// and ties the counters to the mathematical chunking.
pub struct ChunkWriter {
    pub lines_per_chunk: usize,
    pub lines_in_current: usize,
    pub chunk_index: usize,
    pub lines: Ghost<Seq<Seq<char>>>,
}

impl ChunkWriter {
    /// The counters agree with the lines seen: the open chunk `chunk_index`
    /// holds `lines_in_current` lines, every earlier chunk was filled to the
    /// threshold, and a chunk is closed only once full.
    pub open spec fn wf(self) -> bool {
        &&& 1 <= self.lines_per_chunk
        &&& self.lines@.len() == self.chunk_index * self.lines_per_chunk + self.lines_in_current
        &&& if self.lines@.len() == 0 {
            self.chunk_index == 0 && self.lines_in_current == 0
        } else {
            1 <= self.lines_in_current <= self.lines_per_chunk
        }
    }

    /// Start chunking at `lines_per_chunk` lines per output file; chunk 0 is
    /// open and still empty.
    pub fn new(lines_per_chunk: usize) -> (w: ChunkWriter)
        requires
            1 <= lines_per_chunk,
        ensures
            w.wf(),
            w.lines@ == Seq::<Seq<char>>::empty(),
            w.lines_per_chunk == lines_per_chunk,
            w.chunk_index == 0,
            w.lines_in_current == 0,
    {
        ChunkWriter {
            lines_per_chunk,
            lines_in_current: 0,
            chunk_index: 0,
            lines: Ghost(Seq::empty()),
        }
    }

    /// Record one more line. Returns `Some(k)` exactly when the line is the
    /// first of a fresh chunk file `k` (the file before it was full), and
    /// `None` when it lands in the file already open. The line numbered `j`
    /// from zero always lands in chunk `j / lines_per_chunk`.
    pub fn push_line(&mut self, line: &str) -> (opened: Option<usize>)
        requires
            old(self).wf(),
            old(self).lines@.len() < usize::MAX,
        ensures
            final(self).wf(),
            final(self).lines_per_chunk == old(self).lines_per_chunk,
            final(self).lines@ == old(self).lines@.push(line@),
            final(self).chunk_index as int == old(self).lines@.len() as int / (
            old(self).lines_per_chunk as int),
            final(self).chunk_index + 1 == spec_file_count(
                final(self).lines@.len(),
                final(self).lines_per_chunk as nat,
            ),
            (old(self).lines@.len() > 0 && old(self).lines@.len() as int % (
            old(self).lines_per_chunk as int) == 0) ==> opened == Some(final(self).chunk_index),
            !(old(self).lines@.len() > 0 && old(self).lines@.len() as int % (
            old(self).lines_per_chunk as int) == 0) ==> opened is None,
            opened is Some ==> final(self).chunk_index == old(self).chunk_index + 1
                && final(self).lines_in_current == 1,
            opened is None ==> final(self).chunk_index == old(self).chunk_index
                && final(self).lines_in_current == old(self).lines_in_current + 1,
    {
        let ghost t = self.lines_per_chunk as int;
        let ghost ci = self.chunk_index as int;
        let ghost len = self.lines@.len() as int;
        if self.lines_in_current == self.lines_per_chunk {
            proof {
                // The open chunk is full, so the count so far is the exact
                // multiple (ci + 1) * t; the next line starts chunk ci + 1.
                assert(len == (ci + 1) * t) by (nonlinear_arith)
                    requires
                        len == ci * t + t,
                ;
                assert(ci + 1 <= len) by (nonlinear_arith)
                    requires
                        len == (ci + 1) * t,
                        1 <= t,
                        0 <= ci,
                ;
                lemma_fundamental_div_mod_converse(len, t, ci + 1, 0);
            }
            self.chunk_index = self.chunk_index + 1;
            self.lines_in_current = 1;
            self.lines = Ghost(self.lines@.push(line@));
            proof {
                assert(self.lines@.len() == (ci + 1) * t + 1);
                lemma_fundamental_div_mod_converse(self.lines@.len() as int - 1, t, ci + 1, 0);
            }
            Some(self.chunk_index)
        } else {
            proof {
                // The open chunk still has room: the line count is not a
                // positive multiple of the threshold.
                if len > 0 {
                    lemma_fundamental_div_mod_converse(len, t, ci, self.lines_in_current as int);
                } else {
                    lemma_fundamental_div_mod_converse(0, t, 0, 0);
                }
            }
            self.lines_in_current = self.lines_in_current + 1;
            self.lines = Ghost(self.lines@.push(line@));
            proof {
                assert(self.lines@.len() - 1 == ci * t + (self.lines_in_current - 1));
                lemma_fundamental_div_mod_converse(
                    self.lines@.len() as int - 1,
                    t,
                    ci,
                    self.lines_in_current as int - 1,
                );
            }
            None
        }
    }
}

/// The bytes one line contributes to its chunk file: the line's UTF-8
/// encoding followed by a single newline.
pub fn line_record_bytes(line: &str) -> (bytes: Vec<u8>)
    ensures
        bytes@ == line.spec_bytes().push(10u8),
{
    let mut bytes = line.as_bytes_vec();
    bytes.push(10u8);
    bytes
}

/// Partition `lines` into chunk files of `lines_per_chunk` lines each: the
/// batch form of the chunking that a [`ChunkWriter`] performs line by line.
pub fn chunk_lines(lines: &Vec<String>, lines_per_chunk: usize) -> (chunks: Vec<Vec<String>>)
    requires
        1 <= lines_per_chunk,
    ensures
        chunks.deep_view() == spec_chunks(lines.deep_view(), lines_per_chunk as nat),
{
    let ghost all = lines.deep_view();
    let ghost t = lines_per_chunk as nat;
    let mut writer = ChunkWriter::new(lines_per_chunk);
    let mut done: Vec<Vec<String>> = Vec::new();
    let mut current: Vec<String> = Vec::new();
    let n = lines.len();
    proof {
        assert(all.take(0) =~= Seq::<Seq<char>>::empty());
        lemma_empty_source(t);
        assert(current.deep_view() =~= Seq::<Seq<char>>::empty());
        assert(done.deep_view() =~= Seq::<Seq<Seq<char>>>::empty());
        assert(done.deep_view().push(current.deep_view()) =~= spec_chunks(all.take(0), t));
    }
    for i in 0..n
        invariant
            n == lines@.len(),
            all == lines.deep_view(),
            t == lines_per_chunk as nat,
            1 <= lines_per_chunk,
            writer.wf(),
            writer.lines_per_chunk == lines_per_chunk,
            writer.lines@ == all.take(i as int),
            done@.len() == writer.chunk_index,
            current.deep_view() == spec_chunks(all.take(i as int), t).last(),
            done.deep_view().push(current.deep_view()) == spec_chunks(all.take(i as int), t),
    {
        let ghost pre = all.take(i as int);
        let ghost x = all[i as int];
        proof {
            assert(pre.push(x) =~= all.take(i as int + 1));
            assert(x == lines@[i as int]@);
            lemma_chunks_snoc(pre, x, t);
            lemma_chunk_shapes(pre, t);
        }
        let ghost old_done = done.deep_view();
        let ghost old_current = current.deep_view();
        let line = &lines[i];
        let opened = writer.push_line(line.as_str());
        if opened.is_some() {
            done.push(current);
            current = Vec::new();
        }
        current.push(line.clone());
        proof {
            let post = all.take(i as int + 1);
            if opened is Some {
                assert(done.deep_view() =~= old_done.push(old_current));
                assert(current.deep_view() =~= seq![x]);
                assert(spec_chunks(post, t) == spec_chunks(pre, t).push(seq![x]));
                assert(done.deep_view().push(current.deep_view()) =~= spec_chunks(post, t));
            } else {
                assert(current.deep_view() =~= old_current.push(x));
                assert(spec_chunks(post, t) == spec_chunks(pre, t).update(
                    (spec_chunks(pre, t).len() - 1) as int,
                    spec_chunks(pre, t).last().push(x),
                ));
                assert(done.deep_view().push(current.deep_view()) =~= spec_chunks(post, t));
                assert(current.deep_view() == spec_chunks(post, t).last());
            }
        }
    }
    done.push(current);
    proof {
        assert(all.take(n as int) =~= all);
        assert(done.deep_view() =~= spec_chunks(all, t));
    }
    done
}

} // verus!
