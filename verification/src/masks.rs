//! Mask <-> RLE conversion: the run-length decomposition of the
//! column-major pixel traversal, and its expansion back to a grid.
//!
//! The mathematical model is `runs_of` (a pixel sequence's alternating
//! run lengths, starting with background) and `expand_runs` (the pixel
//! sequence a run-length sequence stands for). `mask_to_rle` computes
//! exactly `runs_of`, `rle_to_mask` exactly `expand_runs`, and the
//! round-trip and sum laws are proved about the two models.

use crate::coco::{ints, seq_sum, Rle};
use crate::mask::Mask;
use vstd::prelude::*;

verus! {

/// Whether a pixel value is foreground.
pub open spec fn is_fg(x: u8) -> bool {
    x != 0
}

/// The pixel value written for a run of the given polarity.
pub open spec fn fg_val(fg: bool) -> u8 {
    if fg {
        1u8
    } else {
        0u8
    }
}

/// How many leading pixels of `s` have polarity `fg`.
pub open spec fn leading(s: Seq<u8>, fg: bool) -> nat
    decreases s.len(),
{
    if s.len() == 0 || is_fg(s[0]) != fg {
        0
    } else {
        1 + leading(s.skip(1), fg)
    }
}

/// The run lengths of `s`, where the first run counts pixels of
/// polarity `fg` (and so may be empty).
pub open spec fn runs_from(s: Seq<u8>, fg: bool) -> Seq<int>
    decreases s.len(), (if s.len() > 0 && is_fg(s[0]) != fg { 1int } else { 0int }),
    via runs_from_decreases
{
    let k = leading(s, fg);
    if k == s.len() {
        seq![k as int]
    } else {
        seq![k as int] + runs_from(s.skip(k as int), !fg)
    }
}

#[via_fn]
proof fn runs_from_decreases(s: Seq<u8>, fg: bool) {
    lemma_leading_props(s, fg);
    if leading(s, fg) == 0 && s.len() > 0 {
        assert(s.skip(0) == s);
    }
}

/// The run-length decomposition of a pixel sequence: alternating run
/// lengths, the first counting (possibly zero) background pixels.
pub open spec fn runs_of(s: Seq<u8>) -> Seq<int> {
    runs_from(s, false)
}

/// `c` with its first run length increased by `n`.
pub open spec fn bump_first(c: Seq<int>, n: int) -> Seq<int> {
    c.update(0, c[0] + n)
}

/// The pixel sequence described by run lengths `c`, the first run
/// having polarity `fg`.
pub open spec fn expand_from(c: Seq<int>, fg: bool) -> Seq<u8>
    decreases c.len(),
{
    if c.len() == 0 {
        Seq::empty()
    } else {
        Seq::new(if c[0] >= 0 { c[0] as nat } else { 0nat }, |j: int| fg_val(fg)) + expand_from(
            c.skip(1),
            !fg,
        )
    }
}

/// The pixel sequence described by alternating run lengths that start
/// with a background run.
pub open spec fn expand_runs(c: Seq<int>) -> Seq<u8> {
    expand_from(c, false)
}

/// The first `leading(s, fg)` pixels match `fg` and the next one, if
/// any, does not.
pub proof fn lemma_leading_props(s: Seq<u8>, fg: bool)
    ensures
        leading(s, fg) <= s.len(),
        forall|j: int| 0 <= j < leading(s, fg) ==> is_fg(s[j]) == fg,
        leading(s, fg) < s.len() ==> is_fg(s[leading(s, fg) as int]) != fg,
    decreases s.len(),
{
    if s.len() == 0 || is_fg(s[0]) != fg {
    } else {
        let t = s.skip(1);
        lemma_leading_props(t, fg);
        let k = leading(s, fg);
        assert forall|j: int| 0 <= j < k implies is_fg(s[j]) == fg by {
            if j > 0 {
                assert(s[j] == t[j - 1]);
            }
        }
        if k < s.len() {
            assert(s[k as int] == t[k as int - 1]);
        }
    }
}

/// A run-length decomposition always holds at least one run.
pub proof fn lemma_runs_from_len(s: Seq<u8>, fg: bool)
    ensures
        runs_from(s, fg).len() >= 1,
        runs_from(s, fg)[0] == leading(s, fg),
{
}

/// Prepending one pixel of the current polarity lengthens the first
/// run by one.
pub proof fn lemma_runs_cons_same(s: Seq<u8>, fg: bool)
    requires
        s.len() > 0,
        is_fg(s[0]) == fg,
    ensures
        runs_from(s, fg) == bump_first(runs_from(s.skip(1), fg), 1),
{
    let t = s.skip(1);
    let k = leading(s, fg);
    let kt = leading(t, fg);
    assert(k == 1 + kt);
    lemma_leading_props(s, fg);
    lemma_leading_props(t, fg);
    lemma_runs_from_len(t, fg);
    if k == s.len() {
        assert(kt == t.len());
        assert(runs_from(s, fg) =~= bump_first(runs_from(t, fg), 1));
    } else {
        assert(t.skip(kt as int) =~= s.skip(k as int));
        assert(runs_from(s, fg) =~= bump_first(runs_from(t, fg), 1));
    }
}

/// A pixel of the opposite polarity opens a new, empty run.
pub proof fn lemma_runs_flip(s: Seq<u8>, fg: bool)
    requires
        s.len() > 0,
        is_fg(s[0]) != fg,
    ensures
        runs_from(s, fg) == seq![0int] + runs_from(s, !fg),
{
    assert(leading(s, fg) == 0);
    assert(s.skip(0) == s);
    assert(runs_from(s, fg) =~= seq![0int] + runs_from(s, !fg));
}

/// A non-empty sequence's last run is never empty, so run lengths
/// read off a real mask carry no artificial trailing zero.
pub proof fn lemma_runs_last_positive(s: Seq<u8>, fg: bool)
    requires
        s.len() > 0,
    ensures
        runs_from(s, fg).last() > 0,
    decreases s.len(), (if is_fg(s[0]) != fg {
        1int
    } else {
        0int
    }),
{
    lemma_leading_props(s, fg);
    let k = leading(s, fg);
    if k == s.len() {
    } else {
        let rest = if k == 0 {
            assert(s.skip(0) == s);
            lemma_runs_last_positive(s, !fg);
            runs_from(s, !fg)
        } else {
            lemma_runs_last_positive(s.skip(k as int), !fg);
            runs_from(s.skip(k as int), !fg)
        };
        lemma_runs_from_len(s.skip(k as int), !fg);
        assert(runs_from(s, fg).last() == rest.last());
    }
}

/// The run lengths of a sequence add up to its length.
pub proof fn lemma_runs_from_sum(s: Seq<u8>, fg: bool)
    ensures
        seq_sum(runs_from(s, fg)) == s.len(),
    decreases s.len(), (if s.len() > 0 && is_fg(s[0]) != fg { 1int } else { 0int }),
{
    lemma_leading_props(s, fg);
    let k = leading(s, fg);
    if k == s.len() {
        let r = runs_from(s, fg);
        assert(r =~= seq![k as int]);
        assert(r.skip(1) =~= Seq::<int>::empty());
        assert(seq_sum(r.skip(1)) == 0);
        assert(seq_sum(r) == r[0] + seq_sum(r.skip(1)));
        assert(seq_sum(r) == k);
    } else {
        let r = runs_from(s, fg);
        let rest = runs_from(s.skip(k as int), !fg);
        if k == 0 {
            assert(s.skip(0) == s);
            lemma_runs_from_sum(s, !fg);
        } else {
            lemma_runs_from_sum(s.skip(k as int), !fg);
        }
        assert(r == seq![k as int] + rest);
        assert(r[0] == k);
        assert(r.skip(1) =~= rest);
        assert(seq_sum(r) == r[0] + seq_sum(r.skip(1)));
        assert(seq_sum(r) == k + seq_sum(rest));
    }
}

/// Expanding the run-length decomposition of a binary pixel sequence
/// gives the sequence back.
pub proof fn lemma_expand_runs_from(s: Seq<u8>, fg: bool)
    requires
        forall|i: int| 0 <= i < s.len() ==> s[i] <= 1,
    ensures
        expand_from(runs_from(s, fg), fg) == s,
    decreases s.len(), (if s.len() > 0 && is_fg(s[0]) != fg { 1int } else { 0int }),
{
    lemma_leading_props(s, fg);
    let k = leading(s, fg);
    let r = runs_from(s, fg);
    assert(r[0] == k);
    let head = Seq::new(k, |j: int| fg_val(fg));
    assert forall|j: int| 0 <= j < k implies s[j] == fg_val(fg) by {
        assert(is_fg(s[j]) == fg);
    }
    if k == s.len() {
        assert(r =~= seq![k as int]);
        assert(r.skip(1) =~= Seq::<int>::empty());
        assert(expand_from(r.skip(1), !fg) =~= Seq::<u8>::empty());
        let e = expand_from(r, fg);
        assert(e.len() == s.len());
        assert forall|j: int| 0 <= j < s.len() implies e[j] == s[j] by {
            assert(s[j] == fg_val(fg));
        }
        assert(e =~= s);
    } else {
        let rest = runs_from(s.skip(k as int), !fg);
        let tail = s.skip(k as int);
        if k == 0 {
            assert(s.skip(0) == s);
            lemma_expand_runs_from(s, !fg);
        } else {
            assert forall|i: int| 0 <= i < tail.len() implies tail[i] <= 1 by {
                assert(tail[i] == s[i + k]);
            }
            lemma_expand_runs_from(tail, !fg);
        }
        assert(expand_from(rest, !fg) == tail);
        assert(r.skip(1) =~= rest);
        assert(expand_from(r, fg) == head + expand_from(rest, !fg));
        assert forall|j: int| 0 <= j < s.len() implies (head + tail)[j] == s[j] by {
            if j < k {
                assert(head[j] == fg_val(fg));
                assert(s[j] == fg_val(fg));
            } else {
                assert((head + tail)[j] == tail[j - k]);
                assert(tail[j - k] == s[j]);
            }
        }
        assert(head + tail =~= s);
    }
}

/// The polarity of run number `idx` when run number zero has polarity
/// `fg`.
pub open spec fn run_polarity(fg: bool, idx: int) -> bool {
    if idx % 2 == 0 {
        fg
    } else {
        !fg
    }
}

/// Appending one run length to a run-length sequence appends one run
/// of pixels to its expansion.
pub proof fn lemma_expand_snoc(c: Seq<int>, x: int, fg: bool)
    ensures
        expand_from(c.push(x), fg) == expand_from(c, fg) + Seq::new(
            if x >= 0 {
                x as nat
            } else {
                0nat
            },
            |j: int| fg_val(run_polarity(fg, c.len() as int)),
        ),
    decreases c.len(),
{
    let run = Seq::new(
        if x >= 0 {
            x as nat
        } else {
            0nat
        },
        |j: int| fg_val(run_polarity(fg, c.len() as int)),
    );
    if c.len() == 0 {
        assert(c.push(x)[0] == x);
        assert(c.push(x).skip(1) =~= Seq::<int>::empty());
        assert(expand_from(c.push(x).skip(1), !fg) =~= Seq::<u8>::empty());
        assert(expand_from(c.push(x), fg) =~= expand_from(c, fg) + run);
    } else {
        lemma_expand_snoc(c.skip(1), x, !fg);
        assert(c.push(x).skip(1) =~= c.skip(1).push(x));
        assert(c.push(x)[0] == c[0]);
        let head = Seq::new(
            if c[0] >= 0 {
                c[0] as nat
            } else {
                0nat
            },
            |j: int| fg_val(fg),
        );
        let run2 = Seq::new(
            if x >= 0 {
                x as nat
            } else {
                0nat
            },
            |j: int| fg_val(run_polarity(!fg, c.skip(1).len() as int)),
        );
        assert(run2 =~= run);
        assert(expand_from(c.push(x), fg) == head + (expand_from(c.skip(1), !fg) + run2));
        assert(head + (expand_from(c.skip(1), !fg) + run2) =~= (head + expand_from(c.skip(1), !fg))
            + run);
    }
}

/// Converts a run-length form back into the dense mask it describes.
///
/// The mask's column-major pixel traversal is exactly the expansion of
/// the run lengths into alternating background/foreground runs.
pub fn rle_to_mask(rle: &Rle) -> (m: Mask)
    requires
        rle@.wf(),
    ensures
        m.wf(),
        m.height == rle.size@[0],
        m.width == rle.size@[1],
        m.data@ == expand_runs(ints(rle.counts@)),
{
    let height = rle.size[0];
    let width = rle.size[1];
    let ghost c = ints(rle.counts@);
    let mut data: Vec<u8> = Vec::new();
    let mut j: usize = 0;
    proof {
        assert(c.take(0) =~= Seq::<int>::empty());
        assert(expand_from(c.take(0), false) =~= Seq::<u8>::empty());
        assert(data@ =~= expand_from(c.take(0), false));
        lemma_seq_sum_take_bound(c, 0);
    }
    while j < rle.counts.len()
        invariant
            rle@.wf(),
            c == ints(rle.counts@),
            j <= rle.counts@.len(),
            data@ == expand_from(c.take(j as int), false),
            data@.len() == seq_sum(c.take(j as int)),
            data@.len() <= u32::MAX as int,
            forall|p: int| 0 <= p < data@.len() ==> data@[p] <= 1,
        decreases rle.counts@.len() - j as int,
    {
        let cnt = rle.counts[j];
        let val: u8 = if j % 2 == 0 {
            0
        } else {
            1
        };
        proof {
            assert(fg_val(run_polarity(false, j as int)) == val);
            lemma_seq_sum_take_bound(c, j as int + 1);
            assert(seq_sum(c.take(j as int + 1)) == seq_sum(c.take(j as int)) + c[j as int]) by {
                lemma_seq_sum_snoc(c.take(j as int), c[j as int]);
                assert(c.take(j as int).push(c[j as int]) =~= c.take(j as int + 1));
            }
        }
        let ghost data_before = data@;
        let mut k: u32 = 0;
        while k < cnt
            invariant
                k <= cnt,
                data@ == data_before + Seq::new(k as nat, |q: int| val),
                data@.len() == data_before.len() + k as int,
            decreases cnt as int - k as int,
        {
            data.push(val);
            proof {
                assert(data@ =~= data_before + Seq::new(k as nat + 1, |q: int| val));
            }
            k = k + 1;
        }
        proof {
            lemma_expand_snoc(c.take(j as int), c[j as int], false);
            assert(c.take(j as int).push(c[j as int]) =~= c.take(j as int + 1));
            assert(Seq::new(cnt as nat, |q: int| val) =~= Seq::new(
                if c[j as int] >= 0 {
                    c[j as int] as nat
                } else {
                    0nat
                },
                |q: int| fg_val(run_polarity(false, c.take(j as int).len() as int)),
            ));
        }
        j = j + 1;
    }
    proof {
        assert(c.take(rle.counts@.len() as int) =~= c);
        assert((rle.size@[0] as int) * (rle.size@[1] as int) == seq_sum(c));
    }
    let m = Mask { height, width, data };
    m
}

/// The sum of any prefix of non-negative run lengths is at most the
/// whole sum.
proof fn lemma_seq_sum_take_bound(c: Seq<int>, j: int)
    requires
        0 <= j <= c.len(),
        forall|i: int| 0 <= i < c.len() ==> c[i] >= 0,
    ensures
        0 <= seq_sum(c.take(j)) <= seq_sum(c),
    decreases c.len(),
{
    if c.len() == 0 {
        assert(c.take(j) =~= c);
    } else if j == 0 {
        assert(c.take(0) =~= Seq::<int>::empty());
        lemma_seq_sum_nonneg(c);
    } else {
        lemma_seq_sum_take_bound(c.skip(1), j - 1);
        assert(c.take(j).skip(1) =~= c.skip(1).take(j - 1));
        assert(seq_sum(c.take(j)) == c[0] + seq_sum(c.skip(1).take(j - 1)));
    }
}

/// A sum of non-negative run lengths is non-negative.
proof fn lemma_seq_sum_nonneg(c: Seq<int>)
    requires
        forall|i: int| 0 <= i < c.len() ==> c[i] >= 0,
    ensures
        seq_sum(c) >= 0,
    decreases c.len(),
{
    if c.len() > 0 {
        lemma_seq_sum_nonneg(c.skip(1));
    }
}

/// Appending an element adds it to the sum.
proof fn lemma_seq_sum_snoc(c: Seq<int>, x: int)
    ensures
        seq_sum(c.push(x)) == seq_sum(c) + x,
    decreases c.len(),
{
    if c.len() == 0 {
        assert(c.push(x)[0] == x);
        assert(c.push(x).skip(1) =~= Seq::<int>::empty());
        assert(seq_sum(c.push(x).skip(1)) == 0);
    } else {
        lemma_seq_sum_snoc(c.skip(1), x);
        assert(c.push(x).skip(1) =~= c.skip(1).push(x));
        assert(c.push(x)[0] == c[0]);
        assert(seq_sum(c.push(x)) == c[0] + seq_sum(c.skip(1).push(x)));
    }
}

/// Converts a mask into its run-length form.
///
/// The result's `counts` is exactly the run-length decomposition of
/// the column-major pixel traversal, its `size` is `[height, width]`,
/// and the first run length is zero exactly when the mask is empty or
/// its first pixel is foreground.
pub fn mask_to_rle(mask: &Mask) -> (r: Rle)
    requires
        mask.wf(),
    ensures
        r@.wf(),
        r.size@ == seq![mask.height, mask.width],
        ints(r.counts@) == runs_of(mask.data@),
        r.counts@.len() >= 1,
        (r.counts@[0] == 0) <==> (mask.data@.len() == 0 || is_fg(mask.data@[0])),
{
    let ghost d = mask.data@;
    let n = mask.data.len();
    let mut counts: Vec<u32> = Vec::new();
    let mut count: u32 = 0;
    let mut prev: bool = false;
    let mut i: usize = 0;
    proof {
        assert(d.skip(0) == d);
        lemma_runs_from_len(d, false);
        assert(bump_first(runs_from(d, false), 0) =~= runs_from(d, false));
        assert(ints(counts@) + bump_first(runs_from(d.skip(0), false), 0) =~= runs_of(d));
    }
    while i < n
        invariant
            mask.wf(),
            d == mask.data@,
            n == d.len(),
            i <= n,
            count <= i,
            ints(counts@) + bump_first(runs_from(d.skip(i as int), prev), count as int) == runs_of(
                d,
            ),
        decreases n as int - i as int,
    {
        let x = mask.data[i];
        let ghost s_i = d.skip(i as int);
        proof {
            assert(s_i[0] == d[i as int]);
            assert(s_i.skip(1) =~= d.skip(i as int + 1));
        }
        if (x != 0) == prev {
            proof {
                lemma_runs_cons_same(s_i, prev);
                assert(bump_first(bump_first(runs_from(d.skip(i as int + 1), prev), 1), count
                    as int) =~= bump_first(runs_from(d.skip(i as int + 1), prev), count as int
                    + 1));
            }
            count = count + 1;
        } else {
            proof {
                lemma_runs_flip(s_i, prev);
                lemma_runs_cons_same(s_i, !prev);
                let rest = runs_from(s_i, !prev);
                assert(bump_first(seq![0int] + rest, count as int) =~= seq![count as int] + rest);
                assert(ints(counts@.push(count)) =~= ints(counts@) + seq![count as int]);
                assert((ints(counts@) + seq![count as int]) + bump_first(
                    runs_from(d.skip(i as int + 1), !prev),
                    1,
                ) =~= ints(counts@) + (seq![count as int] + bump_first(
                    runs_from(d.skip(i as int + 1), !prev),
                    1,
                )));
            }
            counts.push(count);
            count = 1;
            prev = !prev;
        }
        i = i + 1;
    }
    proof {
        assert(d.skip(n as int) =~= Seq::<u8>::empty());
        assert(runs_from(d.skip(n as int), prev) =~= seq![0int]);
        assert(bump_first(seq![0int], count as int) =~= seq![count as int]);
        assert(ints(counts@.push(count)) =~= ints(counts@) + seq![count as int]);
        lemma_runs_from_sum(d, false);
        lemma_runs_from_len(d, false);
    }
    counts.push(count);
    let mut size: Vec<u32> = Vec::new();
    size.push(mask.height);
    size.push(mask.width);
    let r = Rle { size, counts };
    proof {
        assert(r.size@ =~= seq![mask.height, mask.width]);
        assert(ints(r.counts@) =~= runs_of(mask.data@));
        assert(r.counts@[0] == runs_of(mask.data@)[0]);
        assert(runs_of(d)[0] == leading(d, false));
        lemma_leading_props(d, false);
    }
    r
}

/// Round trip: expanding the run-length decomposition of a binary
/// pixel sequence reproduces the sequence, so converting a mask to its
/// RLE and back reproduces the mask pixel for pixel.
pub proof fn lemma_mask_rle_round_trip(data: Seq<u8>)
    requires
        forall|i: int| 0 <= i < data.len() ==> data[i] <= 1,
    ensures
        expand_runs(runs_of(data)) == data,
{
    lemma_expand_runs_from(data, false);
}

/// Sum invariant: the run lengths of an `h x w` mask add up to
/// `h * w`, the number of pixels traversed.
pub proof fn lemma_rle_sum(data: Seq<u8>)
    ensures
        seq_sum(runs_of(data)) == data.len(),
{
    lemma_runs_from_sum(data, false);
}

} // verus!
