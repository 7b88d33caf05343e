//! The run-length encoded framebuffer of one screen region.
use vstd::prelude::*;
use vstd::laws_eq::obeys_concrete_eq;
use crate::geometry::Size;
use crate::runs::{set_at, no_mergeable, all_hold, join_runs, join_right, left_part, middle_part, skip_same_back, lemma_split_first, lemma_no_empty_sub, lemma_decode_len, cut_after, cut_before, fill_runs_remainder_first, fill_span, set_span, skip_same, decode, lemma_decode_concat, lemma_decode_at, lemma_run_start_next, lemma_set_one, run_start, set_one, fill_runs, lemma_fill_runs, no_empty_run, repeat, total};

verus! {

/// Longest run that one `(value, length)` pair can hold.
pub const MAX_RUN: u8 = 255;

/// A run-length encoded framebuffer: runs of `(value, length)` that together
/// encode `decompressed_size.width * decompressed_size.height` elements,
/// row by row.
#[derive(Clone, Debug)]
pub struct CompressedBuffer<B> {
    inner: Vec<(B, u8)>,
    decompressed_size: Size,
}

/// Whether `a` and `b` are the same element.
pub fn same_element<B: PartialEq>(a: &B, b: &B) -> (r: bool)
    requires
        obeys_concrete_eq::<B>(),
    ensures
        r == (*a == *b),
{
    proof {
        reveal(obeys_concrete_eq);
    }
    *a == *b
}

/// Appends the runs that encode `n` copies of `v`.
fn push_filled<B: Copy>(runs: &mut Vec<(B, u8)>, v: B, n: u32)
    ensures
        final(runs)@ == old(runs)@ + fill_runs(v, n as nat),
{
    let full: u32 = n / 255;
    let mut i: u32 = 0;
    while i < full
        invariant
            full == n / 255,
            i <= full,
            runs@ == old(runs)@ + Seq::new(i as nat, |_j: int| (v, 255u8)),
        decreases full - i,
    {
        runs.push((v, MAX_RUN));
        i = i + 1;
        assert(runs@ =~= old(runs)@ + Seq::new(i as nat, |_j: int| (v, 255u8)));
    }
    let rest: u32 = n % 255;
    if rest > 0 {
        runs.push((v, rest as u8));
    }
    assert(runs@ =~= old(runs)@ + fill_runs(v, n as nat));
}

impl<B: Copy + PartialEq> CompressedBuffer<B> {
    /// The runs, in order.
    pub closed spec fn runs_spec(&self) -> Seq<(B, u8)> {
        self.inner@
    }

    /// The size of the region that the buffer encodes.
    pub closed spec fn size_spec(&self) -> Size {
        self.decompressed_size
    }

    /// The elements that the buffer encodes, row by row.
    pub open spec fn decoded(&self) -> Seq<B> {
        decode(self.runs_spec())
    }

    /// Number of elements that the buffer encodes.
    pub open spec fn len_spec(&self) -> nat {
        self.size_spec().area()
    }

    /// The buffer encodes exactly as many elements as its region holds, in
    /// runs of 1 to 255 elements.
    pub open spec fn wf(&self) -> bool {
        &&& obeys_concrete_eq::<B>()
        &&& self.len_spec() <= u32::MAX
        &&& no_empty_run(self.runs_spec())
        &&& total(self.runs_spec()) == self.len_spec()
    }

    /// A well-formed buffer decodes to one element per pixel of its region.
    pub proof fn lemma_decoded_len(&self)
        requires
            self.wf(),
        ensures
            self.decoded().len() == self.len_spec(),
    {
        lemma_decode_len(self.runs_spec());
    }

    /// Creates a buffer for a region of `decompressed_size` in which every
    /// element is `start_value`.
    pub fn new(decompressed_size: Size, start_value: B) -> (r: Self)
        requires
            obeys_concrete_eq::<B>(),
            decompressed_size.area() <= u32::MAX,
        ensures
            r.wf(),
            r.size_spec() == decompressed_size,
            r.runs_spec() == fill_runs(start_value, decompressed_size.area()),
            r.decoded() == repeat(start_value, decompressed_size.area()),
    {
        let num_pixels: u32 = decompressed_size.width * decompressed_size.height;
        let mut buffer: Vec<(B, u8)> = Vec::new();
        push_filled(&mut buffer, start_value, num_pixels);
        proof {
            lemma_fill_runs(start_value, num_pixels as nat);
            assert(buffer@ =~= fill_runs(start_value, num_pixels as nat));
        }
        CompressedBuffer { inner: buffer, decompressed_size }
    }

    /// The runs, in order.
    pub fn runs(&self) -> (r: &Vec<(B, u8)>)
        ensures
            r@ == self.runs_spec(),
    {
        &self.inner
    }

    /// The size of the region that the buffer encodes.
    pub fn decompressed_size(&self) -> (r: Size)
        ensures
            r == self.size_spec(),
    {
        self.decompressed_size
    }

    /// Checks that no run is empty and that the runs encode as many elements
    /// as the region holds.
    pub fn check_integrity(&self) -> (r: Result<(), ()>)
        requires
            self.len_spec() <= u32::MAX,
        ensures
            r is Ok <==> (no_empty_run(self.runs_spec()) && total(self.runs_spec()) == self.len_spec()),
    {
        let expected: u64 = self.decompressed_size.width as u64 * self.decompressed_size.height as u64;
        let mut acc: u64 = 0;
        let mut all_nonempty = true;
        let mut k: usize = 0;
        while k < self.inner.len() && acc <= expected
            invariant
                k <= self.inner@.len(),
                acc == total(self.inner@.take(k as int)),
                acc <= expected + 255,
                expected == self.len_spec(),
                expected <= u32::MAX,
                all_nonempty <==> (forall|j: int| 0 <= j < k ==> self.inner@[j].1 > 0),
            decreases self.inner@.len() - k,
        {
            proof {
                assert(self.inner@.take(k as int + 1).drop_last() =~= self.inner@.take(k as int));
            }
            let len = self.inner[k].1;
            if len == 0 {
                all_nonempty = false;
            }
            acc = acc + len as u64;
            k = k + 1;
        }
        proof {
            lemma_decode_concat(self.inner@.take(k as int), self.inner@.skip(k as int));
            assert(self.inner@.take(k as int) + self.inner@.skip(k as int) =~= self.inner@);
        }
        if k < self.inner.len() {
            return Err(());
        }
        proof {
            assert(self.inner@.take(k as int) =~= self.inner@);
        }
        if all_nonempty && acc == expected {
            Ok(())
        } else {
            Err(())
        }
    }

    /// Replaces the content with `new_value` everywhere, in the same runs as
    /// [`CompressedBuffer::new`] would make.
    pub fn clear_and_refill(&mut self, new_value: B)
        requires
            old(self).wf(),
        ensures
            final(self).wf(),
            final(self).size_spec() == old(self).size_spec(),
            final(self).runs_spec() == fill_runs(new_value, old(self).len_spec()),
            final(self).decoded() == repeat(new_value, old(self).len_spec()),
    {
        self.inner.clear();
        let num_pixels: u32 = self.decompressed_size.width * self.decompressed_size.height;
        push_filled(&mut self.inner, new_value, num_pixels);
        proof {
            lemma_fill_runs(new_value, num_pixels as nat);
            assert(self.inner@ =~= fill_runs(new_value, num_pixels as nat));
        }
    }

    /// Finds the run that holds decoded position `target_index`; returns its
    /// index and the decoded position at which it starts.
    fn find_run_with_index(&self, target_index: usize) -> (r: Option<(usize, usize)>)
        requires
            self.wf(),
        ensures
            match r {
                Some((k, start)) => {
                    &&& k < self.runs_spec().len()
                    &&& start == run_start(self.runs_spec(), k as int)
                    &&& start <= target_index < start + self.runs_spec()[k as int].1
                },
                None => target_index >= self.len_spec(),
            },
    {
        let mut current: usize = 0;
        let mut k: usize = 0;
        while k < self.inner.len()
            invariant
                self.wf(),
                k <= self.inner@.len(),
                current == run_start(self.inner@, k as int),
                current <= target_index,
            decreases self.inner@.len() - k,
        {
            proof {
                lemma_run_start_next(self.inner@, k as int);
                assert(self.inner@.take(self.inner@.len() as int) =~= self.inner@);
                crate::runs::lemma_run_start_le_total(self.inner@, k as int + 1);
            }
            let len = self.inner[k].1 as usize;
            if current + len > target_index {
                return Some((k, current));
            }
            current = current + len;
            k = k + 1;
        }
        proof {
            assert(self.inner@.take(k as int) =~= self.inner@);
        }
        None
    }

    /// Writes `new_value` at decoded position `target_index`; fails where the
    /// position is outside the buffer. The run that holds the position is
    /// split around it, and the new element is merged into a neighbour that
    /// holds the same value where the run length allows (see [`set_one`]).
    /// Where no two adjacent runs of `new_value` could be merged before,
    /// none can after.
    pub fn set_at_index(&mut self, target_index: usize, new_value: B) -> (r: Result<(), ()>)
        requires
            old(self).wf(),
        ensures
            final(self).wf(),
            final(self).size_spec() == old(self).size_spec(),
            r is Ok <==> target_index < old(self).len_spec(),
            r is Ok ==> final(self).decoded() == old(self).decoded().update(
                target_index as int,
                new_value,
            ),
            r is Err ==> final(self).runs_spec() == old(self).runs_spec(),
            target_index < old(self).len_spec() && old(self).decoded()[target_index as int]
                == new_value ==> final(self).runs_spec() == old(self).runs_spec(),
            r is Ok ==> final(self).runs_spec() == set_at(old(self).runs_spec(), target_index as int, new_value),
            no_mergeable(old(self).runs_spec(), new_value) ==> no_mergeable(final(self).runs_spec(), new_value),
    {
        let ghost runs0 = self.inner@;
        let found = self.find_run_with_index(target_index);
        let (run_index, start) = match found {
            Some(x) => x,
            None => {
                proof {
                    assert forall|k: int|
                        0 <= k < runs0.len() && #[trigger] run_start(runs0, k) <= target_index < run_start(
                            runs0,
                            k,
                        ) + runs0[k].1 implies false by {
                        lemma_decode_at(runs0, k, target_index - run_start(runs0, k));
                        crate::runs::lemma_decode_len(runs0);
                    }
                }
                return Err(());
            },
        };
        let ghost k0 = run_index as int;
        let ghost off = target_index - start;
        proof {
            crate::runs::lemma_run_unique(runs0, k0, target_index as int);
            crate::runs::lemma_run_of(runs0, k0, target_index as int);
            if no_mergeable(runs0, new_value) {
                crate::runs::lemma_set_one_no_mergeable(runs0, k0, off, new_value);
            }
            lemma_set_one(runs0, k0, off, new_value);
            lemma_decode_at(runs0, k0, off);
            lemma_run_start_next(runs0, k0);
            crate::runs::lemma_run_start_le_total(runs0, k0 + 1);
            crate::runs::lemma_decode_len(runs0);
            crate::runs::lemma_count_le_total(runs0);
        }
        self.write_in_run(run_index, target_index - start, new_value);
        Ok(())
    }

    /// Writes `new_value` at offset `off` of run `run_index`, giving the runs
    /// that [`set_one`] describes.
    #[verifier::rlimit(30)]
    fn write_in_run(&mut self, run_index: usize, off: usize, new_value: B)
        requires
            obeys_concrete_eq::<B>(),
            no_empty_run(old(self).runs_spec()),
            old(self).runs_spec().len() <= u32::MAX,
            run_index < old(self).runs_spec().len(),
            off < old(self).runs_spec()[run_index as int].1,
        ensures
            final(self).size_spec() == old(self).size_spec(),
            final(self).runs_spec() == set_one(old(self).runs_spec(), run_index as int, off as int, new_value),
    {
        let ghost runs0 = self.inner@;
        let ghost k0 = run_index as int;
        let (c, len) = self.inner[run_index];
        if same_element(&new_value, &c) {
            return;
        }
        let before: usize = off;
        let after: usize = len as usize - (off + 1);
        if before == 0 && run_index > 0 {
            let (pc, pl) = self.inner[run_index - 1];
            if same_element(&pc, &new_value) && pl < MAX_RUN {
                self.inner.set(run_index - 1, (pc, pl + 1));
                if len > 1 {
                    self.inner.set(run_index, (c, len - 1));
                    proof {
                        assert(self.inner@ =~= set_one(runs0, k0, off as int, new_value));
                    }
                } else {
                    self.inner.remove(run_index);
                    if run_index < self.inner.len() {
                        let (nc, nl) = self.inner[run_index];
                        if same_element(&nc, &new_value) && (pl as u16 + 1 + nl as u16) <= 255 {
                            self.inner.set(run_index - 1, (pc, pl + 1 + nl));
                            self.inner.remove(run_index);
                            proof {
                                assert(self.inner@ =~= set_one(runs0, k0, off as int, new_value));
                            }
                        } else {
                            proof {
                                assert(self.inner@ =~= set_one(runs0, k0, off as int, new_value));
                            }
                        }
                    } else {
                        proof {
                            assert(self.inner@ =~= set_one(runs0, k0, off as int, new_value));
                        }
                    }
                }
                return;
            }
        }
        if after == 0 && run_index + 1 < self.inner.len() {
            let (nc, nl) = self.inner[run_index + 1];
            if same_element(&nc, &new_value) && nl < MAX_RUN {
                self.inner.set(run_index + 1, (nc, nl + 1));
                if len > 1 {
                    self.inner.set(run_index, (c, len - 1));
                } else {
                    self.inner.remove(run_index);
                }
                proof {
                    assert(self.inner@ =~= set_one(runs0, k0, off as int, new_value));
                }
                return;
            }
        }
        self.inner.set(run_index, (new_value, 1));
        if after > 0 {
            self.inner.insert(run_index + 1, (c, after as u8));
        }
        if before > 0 {
            self.inner.insert(run_index, (c, before as u8));
        }
        proof {
            assert(self.inner@ =~= set_one(runs0, k0, off as int, new_value));
        }
    }


    /// Writes `new_value` at the `num_elements` decoded positions from
    /// `target_index` on; fails where the span does not lie inside the
    /// buffer. Positions at either end of the span that already hold
    /// `new_value` are left alone; the rest of the span is cut out of the
    /// runs and replaced by runs of `new_value` of at most 255 each, which
    /// merge with an equal neighbour where the sum fits (see [`set_span`]).
    /// Where no two adjacent runs of `new_value` could be merged before,
    /// none can after.
    pub fn set_at_index_contiguous(&mut self, target_index: usize, new_value: B, num_elements: usize) -> (r: Result<(), ()>)
        requires
            old(self).wf(),
        ensures
            final(self).wf(),
            final(self).size_spec() == old(self).size_spec(),
            r is Ok <==> (target_index < old(self).len_spec() && target_index + num_elements
                <= old(self).len_spec()),
            r is Err ==> final(self).runs_spec() == old(self).runs_spec(),
            r is Ok ==> final(self).runs_spec() == set_span(
                old(self).runs_spec(),
                target_index as int,
                num_elements as int,
                new_value,
            ),
            (forall|j: int| target_index <= j < target_index + num_elements ==> old(self).decoded()[j] == new_value)
                ==> final(self).runs_spec() == old(self).runs_spec(),
            r is Ok ==> final(self).decoded() == fill_span(
                old(self).decoded(),
                target_index as int,
                target_index + num_elements,
                new_value,
            ),
            no_mergeable(old(self).runs_spec(), new_value) ==> no_mergeable(final(self).runs_spec(), new_value),
    {
        let ghost runs0 = self.inner@;
        let ghost d = decode(runs0);
        let size: usize = (self.decompressed_size.width * self.decompressed_size.height) as usize;
        if target_index >= size || num_elements > size - target_index {
            return Err(());
        }
        let end: usize = target_index + num_elements;
        proof {
            if forall|j: int| target_index <= j < end ==> d[j] == new_value {
                crate::runs::lemma_skip_same_from(d, target_index as int, end as int, end as int, new_value);
                assert(skip_same(d, end as int, end as int, new_value) == end);
            }
        }
        if num_elements == 0 {
            proof {
                assert(fill_span(d, target_index as int, end as int, new_value) =~= d);
            }
            return Ok(());
        }
        proof {
            crate::runs::lemma_set_span(runs0, target_index as int, num_elements as int, new_value);
            crate::runs::lemma_skip_same(d, target_index as int, end as int, new_value);
            crate::runs::lemma_count_le_total(runs0);
            crate::runs::lemma_decode_len(runs0);
        }
        let found = self.find_run_with_index(target_index);
        let (mut k, mut start) = match found {
            Some(x) => x,
            None => {
                return Err(());
            },
        };
        while same_element(&self.inner[k].0, &new_value)
            invariant
                self.wf(),
                self.inner@ == runs0,
                d == decode(runs0),
                total(runs0) == size,
                size <= u32::MAX,
                end == target_index + num_elements,
                end <= size,
                target_index < end,
                k < runs0.len(),
                runs0.len() <= size,
                start == run_start(runs0, k as int),
                start < end,
                (if start > target_index { start as int } else { target_index as int }) < start
                    + runs0[k as int].1,
                skip_same(d, target_index as int, end as int, new_value) == skip_same(
                    d,
                    if start > target_index { start as int } else { target_index as int },
                    end as int,
                    new_value,
                ),
            decreases runs0.len() - k,
        {
            let ghost p = if start > target_index { start as int } else { target_index as int };
            proof {
                lemma_run_start_next(runs0, k as int);
                crate::runs::lemma_run_start_le_total(runs0, k as int + 1);
                assert forall|j: int| p <= j < start + runs0[k as int].1 && j < end implies d[j]
                    == new_value by {
                    lemma_decode_at(runs0, k as int, j - start);
                }
                if start + runs0[k as int].1 < end {
                    crate::runs::lemma_skip_same_from(d, p, start + runs0[k as int].1, end as int, new_value);
                } else {
                    crate::runs::lemma_skip_same_from(d, p, end as int, end as int, new_value);
                }
            }
            start = start + self.inner[k].1 as usize;
            k = k + 1;
            if start >= end {
                proof {
                    assert(skip_same(d, end as int, end as int, new_value) == end);
                    assert(set_span(runs0, target_index as int, num_elements as int, new_value) == runs0);
                    crate::runs::lemma_set_span(runs0, target_index as int, num_elements as int, new_value);
                }
                return Ok(());
            }
            proof {
                if k as int >= runs0.len() {
                    assert(runs0.take(k as int) =~= runs0);
                }
            }
        }
        let t2: usize = if start > target_index { start } else { target_index };
        proof {
            lemma_decode_at(runs0, k as int, t2 - start);
        }
        let inside: u8 = (t2 - start) as u8;
        proof {
            assert(d[t2 as int] != new_value);
            assert(skip_same(d, t2 as int, end as int, new_value) == t2);
        }
        let e2 = self.span_end(k, start, t2, end, &new_value);
        self.replace_span(k, inside, t2, e2, new_value);
        proof {
            assert(skip_same(d, target_index as int, end as int, new_value) == t2);
            assert(!(forall|j: int| target_index <= j < end ==> d[j] == new_value)) by {
                if forall|j: int| target_index <= j < end ==> d[j] == new_value {
                    crate::runs::lemma_skip_same_from(d, target_index as int, end as int, end as int, new_value);
                    assert(skip_same(d, end as int, end as int, new_value) == end);
                }
            }
            assert(d == old(self).decoded());
            assert(self.inner@ == set_span(runs0, target_index as int, num_elements as int, new_value));
            crate::runs::lemma_set_span(runs0, target_index as int, num_elements as int, new_value);
            if no_mergeable(runs0, new_value) {
                crate::runs::lemma_set_span_no_mergeable(runs0, target_index as int, num_elements as int, new_value);
            }
        }
        Ok(())
    }

    /// Just after the last position before `end`, and from `t2` on, that
    /// does not hold `v`; run `k`, which starts at `start`, holds `t2` and
    /// does not hold `v`.
    fn span_end(&self, k: usize, start: usize, t2: usize, end: usize, v: &B) -> (e2: usize)
        requires
            self.wf(),
            k < self.runs_spec().len(),
            start == run_start(self.runs_spec(), k as int),
            start <= t2 < start + self.runs_spec()[k as int].1,
            self.runs_spec()[k as int].0 != *v,
            t2 < end <= self.len_spec(),
        ensures
            t2 < e2 <= end,
            e2 == skip_same_back(self.decoded(), t2 as int, end as int, *v),
    {
        let ghost runs0 = self.inner@;
        let ghost d = decode(runs0);
        let new_value = *v;
        let found_end = self.find_run_with_index(end - 1);
        let (mut ke, mut se) = match found_end {
            Some(x) => x,
            None => {
                return end;
            },
        };
        proof {
            if ke < k {
                lemma_run_start_next(runs0, ke as int);
                crate::runs::lemma_run_start_mono(runs0, ke as int + 1, k as int);
            }
        }
        let mut cur_end: usize = end;
        while same_element(&self.inner[ke].0, &new_value)
            invariant
                self.wf(),
                self.inner@ == runs0,
                d == decode(runs0),
                k < runs0.len(),
                start == run_start(runs0, k as int),
                start <= t2 < start + runs0[k as int].1,
                runs0[k as int].0 != new_value,
                k <= ke < runs0.len(),
                se == run_start(runs0, ke as int),
                se < cur_end <= se + runs0[ke as int].1,
                t2 < cur_end <= end,
                skip_same_back(d, t2 as int, end as int, new_value) == skip_same_back(
                    d,
                    t2 as int,
                    cur_end as int,
                    new_value,
                ),
            decreases ke,
        {
            proof {
                assert(ke > k);
                lemma_run_start_next(runs0, k as int);
                crate::runs::lemma_run_start_mono(runs0, k as int + 1, ke as int);
                assert forall|j: int| se <= j < cur_end implies d[j] == new_value by {
                    lemma_decode_at(runs0, ke as int, j - se);
                }
                crate::runs::lemma_skip_same_back_from(d, t2 as int, se as int, cur_end as int, new_value);
                lemma_run_start_next(runs0, ke - 1);
            }
            cur_end = se;
            ke = ke - 1;
            se = se - self.inner[ke].1 as usize;
        }
        proof {
            lemma_decode_at(runs0, ke as int, cur_end - 1 - se);
            assert(skip_same_back(d, t2 as int, cur_end as int, new_value) == cur_end);
        }
        cur_end
    }

    /// Replaces decoded positions `t2` up to `e2` by runs of `v`, merged
    /// with equal neighbours; `t2` lies at offset `inside` of run `k`.
    fn replace_span(&mut self, k: usize, inside: u8, t2: usize, e2: usize, new_value: B)
        requires
            old(self).wf(),
            k < old(self).runs_spec().len(),
            run_start(old(self).runs_spec(), k as int) + inside == t2,
            inside < old(self).runs_spec()[k as int].1,
            t2 < e2 <= old(self).len_spec(),
        ensures
            final(self).size_spec() == old(self).size_spec(),
            final(self).runs_spec() == join_runs(
                cut_before(old(self).runs_spec(), t2 as int),
                fill_runs_remainder_first(new_value, (e2 - t2) as nat),
                cut_after(old(self).runs_spec(), e2 as int),
                new_value,
            ),
    {
        let ghost runs0 = self.inner@;
        let insert_index = self.remove_n_elements_starting_at_run_x_index_i(e2 - t2, k, inside);
        let ghost mid = self.inner@;
        proof {
            assert(mid.take(insert_index as int) =~= cut_before(runs0, t2 as int));
            assert(mid.skip(insert_index as int) =~= cut_after(runs0, e2 as int));
            crate::runs::lemma_fill_runs_shape(new_value, (e2 - t2) as nat);
            crate::runs::lemma_cut_decode(runs0, t2 as int);
            crate::runs::lemma_cut_decode(runs0, e2 as int);
            crate::runs::lemma_count_le_total(cut_before(runs0, t2 as int));
            crate::runs::lemma_count_le_total(cut_after(runs0, e2 as int));
        }
        self.add_n_elements_at_run_x(e2 - t2, new_value, insert_index);
        let ghost added = self.inner@;
        let ghost fr = fill_runs_remainder_first(new_value, (e2 - t2) as nat);
        let fresh: usize = e2 - t2;
        let fresh_runs: usize = if fresh % 255 == 0 { fresh / 255 } else { fresh / 255 + 1 };
        proof {
            assert(fresh_runs == fr.len());
            assert(added.take(insert_index as int) =~= cut_before(runs0, t2 as int));
            assert(added.subrange(insert_index as int, insert_index + fr.len()) =~= fr);
            assert(added.skip(insert_index + fr.len()) =~= cut_after(runs0, e2 as int));
        }
        self.merge_new_runs(insert_index, fresh_runs, new_value);
    }

    /// Merges the `count` new runs at `at` with equal neighbours (see
    /// [`join_runs`]).
    fn merge_new_runs(&mut self, at: usize, count: usize, v: B)
        requires
            obeys_concrete_eq::<B>(),
            count > 0,
            at + count <= old(self).runs_spec().len(),
            old(self).runs_spec().len() <= u32::MAX,
            all_hold(old(self).runs_spec().subrange(at as int, at + count), v),
        ensures
            final(self).size_spec() == old(self).size_spec(),
            final(self).runs_spec() == join_runs(
                old(self).runs_spec().take(at as int),
                old(self).runs_spec().subrange(at as int, at + count),
                old(self).runs_spec().skip(at + count),
                v,
            ),
    {
        let ghost a = self.inner@.take(at as int);
        let ghost f = self.inner@.subrange(at as int, at + count);
        let ghost c = self.inner@.skip(at + count);
        let first = self.merge_left_edge(at, count, v);
        let ghost a2 = left_part(a, f, v);
        let ghost f2 = middle_part(a, f, v);
        self.merge_right_edge(first + count - 1, v);
        proof {
            assert(self.inner@ =~= join_right(a2, f2, c, v));
        }
    }

    /// Merges the first new run into the run before it where that holds `v`
    /// and the sum fits; returns where the new runs now begin.
    fn merge_left_edge(&mut self, at: usize, count: usize, v: B) -> (first: usize)
        requires
            obeys_concrete_eq::<B>(),
            count > 0,
            at + count <= old(self).runs_spec().len(),
            old(self).runs_spec().len() <= u32::MAX,
        ensures
            final(self).size_spec() == old(self).size_spec(),
            final(self).runs_spec() == left_part(
                old(self).runs_spec().take(at as int),
                old(self).runs_spec().subrange(at as int, at + count),
                v,
            ) + middle_part(
                old(self).runs_spec().take(at as int),
                old(self).runs_spec().subrange(at as int, at + count),
                v,
            ) + old(self).runs_spec().skip(at + count),
            first == left_part(
                old(self).runs_spec().take(at as int),
                old(self).runs_spec().subrange(at as int, at + count),
                v,
            ).len(),
            first + count <= final(self).runs_spec().len() + 1,
            first + count - 1 < final(self).runs_spec().len(),
    {
        let ghost a = self.inner@.take(at as int);
        let ghost f = self.inner@.subrange(at as int, at + count);
        let ghost c = self.inner@.skip(at + count);
        proof {
            assert(f[0] == self.inner@[at as int]);
        }
        if at > 0 {
            let (pc, pl) = self.inner[at - 1];
            let fl = self.inner[at].1;
            if same_element(&pc, &v) && pl as u16 + fl as u16 <= 255 {
                self.inner.set(at - 1, (v, pl + fl));
                self.inner.remove(at);
                proof {
                    assert(self.inner@ =~= left_part(a, f, v) + middle_part(a, f, v) + c);
                }
                return at - 1;
            }
        }
        proof {
            assert(self.inner@ =~= left_part(a, f, v) + middle_part(a, f, v) + c);
        }
        at
    }

    /// Merges run `last` into the run after it where that holds `v` and the
    /// sum fits.
    fn merge_right_edge(&mut self, last: usize, v: B)
        requires
            obeys_concrete_eq::<B>(),
            last < old(self).runs_spec().len(),
            old(self).runs_spec().len() <= u32::MAX,
        ensures
            final(self).size_spec() == old(self).size_spec(),
            final(self).runs_spec() == join_right(
                old(self).runs_spec().take(last as int),
                seq![old(self).runs_spec()[last as int]],
                old(self).runs_spec().skip(last + 1),
                v,
            ),
    {
        let ghost a = self.inner@.take(last as int);
        let ghost f = seq![self.inner@[last as int]];
        let ghost c = self.inner@.skip(last + 1);
        if last + 1 < self.inner.len() {
            let ll = self.inner[last].1;
            let (nc, nl) = self.inner[last + 1];
            if same_element(&nc, &v) && ll as u16 + nl as u16 <= 255 {
                self.inner.set(last, (v, ll + nl));
                self.inner.remove(last + 1);
                proof {
                    assert(self.inner@ =~= join_right(a, f, c, v));
                }
                return;
            }
        }
        proof {
            assert(self.inner@ =~= join_right(a, f, c, v));
        }
    }

    /// Cuts `elements_to_remove` decoded elements out of the runs, from
    /// offset `inside_run_index` of run `run_index` on; returns the index at
    /// which the runs after the cut now begin.
    fn remove_n_elements_starting_at_run_x_index_i(
        &mut self,
        elements_to_remove: usize,
        run_index: usize,
        inside_run_index: u8,
    ) -> (r: usize)
        requires
            no_empty_run(old(self).runs_spec()),
            total(old(self).runs_spec()) <= u32::MAX,
            run_index < old(self).runs_spec().len(),
            inside_run_index < old(self).runs_spec()[run_index as int].1,
            run_start(old(self).runs_spec(), run_index as int) + inside_run_index + elements_to_remove
                <= total(old(self).runs_spec()),
        ensures
            final(self).size_spec() == old(self).size_spec(),
            final(self).runs_spec() == cut_before(
                old(self).runs_spec(),
                run_start(old(self).runs_spec(), run_index as int) + inside_run_index,
            ) + cut_after(
                old(self).runs_spec(),
                run_start(old(self).runs_spec(), run_index as int) + inside_run_index
                    + elements_to_remove,
            ),
            r == cut_before(
                old(self).runs_spec(),
                run_start(old(self).runs_spec(), run_index as int) + inside_run_index,
            ).len(),
    {
        let ghost runs0 = self.inner@;
        let ghost begin = run_start(runs0, run_index as int) + inside_run_index;
        proof {
            crate::runs::lemma_cut_before_at(runs0, run_index as int, inside_run_index as int);
            crate::runs::lemma_cut_after_at(runs0, run_index as int, inside_run_index as int);
            crate::runs::lemma_count_le_total(runs0);
        }
        let (c, len) = self.inner[run_index];
        if inside_run_index > 0 {
            self.inner.set(run_index, (c, inside_run_index));
            self.inner.insert(run_index + 1, (c, len - inside_run_index));
        }
        let insert_index: usize = if inside_run_index > 0 { run_index + 1 } else { run_index };
        proof {
            assert(self.inner@ =~= cut_before(runs0, begin) + cut_after(runs0, begin));
            assert(cut_before(runs0, begin).len() == insert_index);
        }
        let mut rem: usize = elements_to_remove;
        while rem > 0
            invariant
                no_empty_run(runs0),
                total(runs0) <= u32::MAX,
                0 <= begin,
                begin + elements_to_remove <= total(runs0),
                rem <= elements_to_remove,
                cut_before(runs0, begin).len() == insert_index,
                self.inner@ == cut_before(runs0, begin) + cut_after(
                    runs0,
                    begin + elements_to_remove - rem,
                ),
                self.decompressed_size == old(self).decompressed_size,
            decreases rem,
        {
            let ghost q = begin + elements_to_remove - rem;
            let ghost x = cut_after(runs0, q);
            proof {
                crate::runs::lemma_cut_decode(runs0, q);
                crate::runs::lemma_count_le_total(x);
                assert(self.inner@[insert_index as int] == x[0]);
            }
            let (nc, next_len) = self.inner[insert_index];
            if rem < next_len as usize {
                self.inner.set(insert_index, (nc, next_len - rem as u8));
                proof {
                    crate::runs::lemma_cut_after_twice(runs0, q, rem as int);
                    assert(cut_after(x, rem as int) =~= seq![(nc, (next_len - rem) as u8)] + x.skip(1));
                    assert(self.inner@ =~= cut_before(runs0, begin) + cut_after(runs0, q + rem));
                }
                rem = 0;
            } else {
                self.inner.remove(insert_index);
                proof {
                    crate::runs::lemma_cut_after_twice(runs0, q, next_len as int);
                    assert(cut_after(x.skip(1), 0) == x.skip(1));
                    assert(self.inner@ =~= cut_before(runs0, begin) + cut_after(runs0, q + next_len));
                }
                rem = rem - next_len as usize;
            }
        }
        insert_index
    }

    /// Inserts the runs that encode `num_elements` copies of `new_value` at
    /// run index `run_index`: the remainder first, then full runs.
    fn add_n_elements_at_run_x(&mut self, num_elements: usize, new_value: B, run_index: usize)
        requires
            run_index <= old(self).runs_spec().len(),
            num_elements <= u32::MAX,
        ensures
            final(self).size_spec() == old(self).size_spec(),
            final(self).runs_spec() == old(self).runs_spec().take(run_index as int)
                + fill_runs_remainder_first(new_value, num_elements as nat)
                + old(self).runs_spec().skip(run_index as int),
    {
        let ghost runs0 = self.inner@;
        let full: usize = num_elements / 255;
        let mut i: usize = 0;
        while i < full
            invariant
                full == num_elements / 255,
                i <= full,
                run_index <= runs0.len(),
                self.inner@ == runs0.take(run_index as int) + Seq::new(
                    i as nat,
                    |_j: int| (new_value, 255u8),
                ) + runs0.skip(run_index as int),
                self.decompressed_size == old(self).decompressed_size,
            decreases full - i,
        {
            self.inner.insert(run_index, (new_value, MAX_RUN));
            i = i + 1;
            assert(self.inner@ =~= runs0.take(run_index as int) + Seq::new(
                i as nat,
                |_j: int| (new_value, 255u8),
            ) + runs0.skip(run_index as int));
        }
        let rest: usize = num_elements % 255;
        if rest > 0 {
            self.inner.insert(run_index, (new_value, rest as u8));
        }
        assert(self.inner@ =~= runs0.take(run_index as int) + fill_runs_remainder_first(
            new_value,
            num_elements as nat,
        ) + runs0.skip(run_index as int));
    }
}

/// A forward cursor that decodes a [`CompressedBuffer`] element by element
/// without copying it, and skips whole runs at once.
#[derive(Clone)]
pub struct DecompressingIter<'a, B> {
    current_run: Option<(B, u8)>,
    runs: &'a Vec<(B, u8)>,
    next_run: usize,
    decompressed_index: usize,
}

impl<'a, B: Copy + PartialEq> DecompressingIter<'a, B> {
    /// The elements that the cursor walks over, from the first on.
    pub closed spec fn source(&self) -> Seq<B> {
        decode(self.runs@)
    }

    /// Number of elements that the cursor has passed.
    pub closed spec fn position(&self) -> nat {
        self.decompressed_index as nat
    }

    /// The elements that the cursor has not yet handed out.
    closed spec fn rest(&self) -> Seq<B> {
        match self.current_run {
            Some((v, n)) => repeat(v, n as nat) + decode(self.runs@.skip(self.next_run as int)),
            None => Seq::empty(),
        }
    }

    pub closed spec fn wf(&self) -> bool {
        &&& no_empty_run(self.runs@)
        &&& total(self.runs@) <= u32::MAX
        &&& self.next_run <= self.runs@.len()
        &&& self.decompressed_index <= total(self.runs@)
        &&& self.rest() == decode(self.runs@).skip(self.decompressed_index as int)
        &&& match self.current_run {
            Some((_v, n)) => n > 0,
            None => self.next_run == self.runs@.len(),
        }
    }

    /// A cursor at the first element of `buffer`.
    pub fn new(buffer: &'a CompressedBuffer<B>) -> (r: Self)
        requires
            buffer.wf(),
        ensures
            r.wf(),
            r.source() == buffer.decoded(),
            r.position() == 0,
    {
        let runs = buffer.runs();
        let ghost s = runs@;
        proof {
            lemma_decode_len(s);
        }
        if runs.len() == 0 {
            proof {
                assert(decode(s).skip(0) =~= Seq::<B>::empty());
            }
            DecompressingIter { current_run: None, runs, next_run: 0, decompressed_index: 0 }
        } else {
            proof {
                lemma_split_first(s);
                assert(decode(s).skip(0) =~= decode(s));
            }
            DecompressingIter { current_run: Some(runs[0]), runs, next_run: 1, decompressed_index: 0 }
        }
    }

    /// The run after the current one, which becomes current.
    fn load_next_run(&mut self)
        requires
            no_empty_run(old(self).runs@),
            old(self).next_run <= old(self).runs@.len(),
        ensures
            final(self).runs == old(self).runs,
            final(self).decompressed_index == old(self).decompressed_index,
            old(self).next_run < old(self).runs@.len() ==> final(self).next_run == old(self).next_run + 1
                && final(self).current_run == Some(old(self).runs@[old(self).next_run as int]),
            old(self).next_run == old(self).runs@.len() ==> final(self).next_run == old(self).next_run
                && final(self).current_run is None,
            decode(old(self).runs@.skip(old(self).next_run as int)) == match final(self).current_run {
                Some((v, n)) => repeat(v, n as nat) + decode(final(self).runs@.skip(final(self).next_run as int)),
                None => Seq::empty(),
            },
    {
        if self.next_run < self.runs.len() {
            let ghost s = self.runs@.skip(self.next_run as int);
            proof {
                lemma_split_first(s);
                assert(s.skip(1) =~= self.runs@.skip(self.next_run as int + 1));
            }
            self.current_run = Some(self.runs[self.next_run]);
            self.next_run = self.next_run + 1;
        } else {
            proof {
                assert(self.runs@.skip(self.next_run as int) =~= Seq::<(B, u8)>::empty());
            }
            self.current_run = None;
        }
    }

    /// The next element, or `None` once all have been handed out.
    pub fn next(&mut self) -> (r: Option<B>)
        requires
            old(self).wf(),
        ensures
            final(self).wf(),
            final(self).source() == old(self).source(),
            old(self).position() < old(self).source().len() ==> r == Some(old(self).source()[old(self).position() as int])
                && final(self).position() == old(self).position() + 1,
            old(self).position() >= old(self).source().len() ==> r is None && final(self).position()
                == old(self).position(),
    {
        let ghost d = decode(self.runs@);
        proof {
            lemma_decode_len(self.runs@);
            lemma_no_empty_sub(self.runs@, self.next_run as int, self.runs@.len() as int);
        }
        match self.current_run {
            None => {
                proof {
                    assert(d.skip(self.decompressed_index as int).len() == 0);
                }
                None
            },
            Some((v, left)) => {
                let ghost old_rest = self.rest();
                proof {
                    assert(self.rest()[0] == v);
                    assert(old_rest.skip(1) =~= d.skip(self.decompressed_index as int + 1));
                }
                if left > 1 {
                    self.current_run = Some((v, left - 1));
                    proof {
                        assert(self.rest() =~= old_rest.skip(1));
                    }
                } else {
                    self.load_next_run();
                    proof {
                        assert(self.rest() =~= old_rest.skip(1));
                    }
                }
                self.decompressed_index = self.decompressed_index + 1;
                Some(v)
            },
        }
    }

    /// Skips `n` elements and returns the one after them, or `None` where
    /// fewer than `n + 1` are left; runs that lie wholly inside the skipped
    /// part are passed over at once.
    pub fn nth(&mut self, n: usize) -> (r: Option<B>)
        requires
            old(self).wf(),
        ensures
            final(self).wf(),
            final(self).source() == old(self).source(),
            old(self).position() + n < old(self).source().len() ==> r == Some(
                old(self).source()[old(self).position() + n],
            ) && final(self).position() == old(self).position() + n + 1,
            old(self).position() + n >= old(self).source().len() ==> r is None
                && final(self).position() == old(self).source().len(),
    {
        let ghost d = decode(self.runs@);
        let ghost begin = self.decompressed_index as int;
        proof {
            lemma_decode_len(self.runs@);
        }
        let mut left_to_skip: usize = n;
        loop
            invariant
                self.wf(),
                self.runs == old(self).runs,
                d == decode(self.runs@),
                d.len() == total(self.runs@),
                begin == old(self).decompressed_index,
                begin <= self.decompressed_index,
                self.decompressed_index + left_to_skip == begin + n,
            decreases left_to_skip,
        {
            proof {
                lemma_no_empty_sub(self.runs@, self.next_run as int, self.runs@.len() as int);
            }
            match self.current_run {
                None => {
                    proof {
                        assert(d.skip(self.decompressed_index as int).len() == 0);
                        assert(self.decompressed_index == d.len());
                        assert(old(self).source() == d);
                        assert(old(self).position() == begin);
                    }
                    return None;
                },
                Some((v, left)) => {
                    if left_to_skip == 0 {
                        proof {
                            assert(old(self).source() == d);
                            assert(old(self).position() == begin);
                        }
                        return self.next();
                    }
                    let ghost old_rest = self.rest();
                    if left_to_skip < left as usize {
                        proof {
                            assert(old_rest.skip(left_to_skip as int) =~= d.skip(self.decompressed_index + left_to_skip));
                        }
                        self.current_run = Some((v, left - left_to_skip as u8));
                        proof {
                            assert(self.rest() =~= old_rest.skip(left_to_skip as int));
                        }
                        self.decompressed_index = self.decompressed_index + left_to_skip;
                        return self.next();
                    }
                    proof {
                        assert(old_rest.skip(left as int) =~= d.skip(self.decompressed_index + left as int));
                    }
                    self.load_next_run();
                    proof {
                        assert(self.rest() =~= old_rest.skip(left as int));
                    }
                    self.decompressed_index = self.decompressed_index + left as usize;
                    left_to_skip = left_to_skip - left as usize;
                },
            }
        }
    }
}

} // verus!