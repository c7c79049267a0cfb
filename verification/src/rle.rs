//! Run-length encoding of the packed byte array. A run is a pair
//! `(value, stored length)` where the stored length is the actual run length
//! minus one, so a run of a single byte stores length 0. A run's length is
//! capped so the stored field fits `u16`: the longest representable run is
//! 65536 bytes, and a longer span becomes adjacent runs of the same value.

use vstd::prelude::*;

verus! {

/// The longest actual run length whose stored form fits a `u16`.
pub const MAX_RUN: usize = 65536;

/// The bytes a single run stands for: stored length + 1 copies of its value.
pub open spec fn run_bytes(run: (u8, u16)) -> Seq<u8> {
    Seq::new(run.1 as nat + 1, |i: int| run.0)
}

/// The packed byte sequence an ordered run sequence stands for.
pub open spec fn rle_bytes(runs: Seq<(u8, u16)>) -> Seq<u8>
    decreases runs.len(),
{
    if runs.len() == 0 {
        Seq::empty()
    } else {
        run_bytes(runs[0]) + rle_bytes(runs.skip(1))
    }
}

/// Runs as the encoder produces them, maximal: no two adjacent runs share a
/// value unless the earlier one is at the length cap (which a volume shorter
/// than `MAX_RUN` bytes can never reach).
pub open spec fn runs_maximal(runs: Seq<(u8, u16)>) -> bool {
    forall|i: int|
        0 <= i < runs.len() - 1 ==> runs[i].0 != runs[i + 1].0 || runs[i].1 == (MAX_RUN
            - 1) as u16
}

/// The byte offset at which run `i` begins.
pub open spec fn run_start(runs: Seq<(u8, u16)>, i: int) -> int {
    rle_bytes(runs.take(i)).len() as int
}

/// Whether run `i` covers byte offset `k`.
pub open spec fn covers(runs: Seq<(u8, u16)>, i: int, k: int) -> bool {
    run_start(runs, i) <= k < run_start(runs, i) + runs[i].1 + 1
}

/// Encoding distributes over concatenation of run sequences.
pub proof fn lemma_rle_bytes_append(a: Seq<(u8, u16)>, b: Seq<(u8, u16)>)
    ensures
        rle_bytes(a + b) == rle_bytes(a) + rle_bytes(b),
    decreases a.len(),
{
    if a.len() == 0 {
        assert(a + b =~= b);
        assert(rle_bytes(a) + rle_bytes(b) =~= rle_bytes(b));
    } else {
        assert((a + b).len() > 0);
        assert((a + b)[0] == a[0]);
        assert((a + b).skip(1) =~= a.skip(1) + b);
        lemma_rle_bytes_append(a.skip(1), b);
        assert(run_bytes(a[0]) + (rle_bytes(a.skip(1)) + rle_bytes(b)) =~= (run_bytes(a[0])
            + rle_bytes(a.skip(1))) + rle_bytes(b));
    }
}

/// A single run encodes to its own bytes.
pub proof fn lemma_rle_bytes_singleton(r: (u8, u16))
    ensures
        rle_bytes(seq![r]) == run_bytes(r),
{
    assert(seq![r].len() == 1);
    assert(seq![r][0] == r);
    assert(seq![r].skip(1) =~= Seq::<(u8, u16)>::empty());
    assert(rle_bytes(seq![r].skip(1)) == Seq::<u8>::empty());
    assert(run_bytes(r) + Seq::<u8>::empty() =~= run_bytes(r));
}

/// Appending one run appends its bytes.
pub proof fn lemma_rle_bytes_push(runs: Seq<(u8, u16)>, r: (u8, u16))
    ensures
        rle_bytes(runs.push(r)) == rle_bytes(runs) + run_bytes(r),
{
    assert(runs.push(r) =~= runs + seq![r]);
    lemma_rle_bytes_append(runs, seq![r]);
    lemma_rle_bytes_singleton(r);
}

/// The bytes of a run sequence split at any run boundary.
pub proof fn lemma_rle_bytes_split(runs: Seq<(u8, u16)>, i: int)
    requires
        0 <= i <= runs.len(),
    ensures
        rle_bytes(runs) == rle_bytes(runs.take(i)) + rle_bytes(runs.skip(i)),
{
    assert(runs =~= runs.take(i) + runs.skip(i));
    lemma_rle_bytes_append(runs.take(i), runs.skip(i));
}

/// Extending a prefix by one run extends its bytes by that run's bytes.
pub proof fn lemma_rle_bytes_take_step(runs: Seq<(u8, u16)>, i: int)
    requires
        0 <= i < runs.len(),
    ensures
        rle_bytes(runs.take(i + 1)) == rle_bytes(runs.take(i)) + run_bytes(runs[i]),
{
    assert(runs.take(i + 1) =~= runs.take(i).push(runs[i]));
    lemma_rle_bytes_push(runs.take(i), runs[i]);
}

/// A byte offset that falls inside run `i` holds that run's value.
pub proof fn lemma_rle_index_in_run(runs: Seq<(u8, u16)>, i: int, k: int)
    requires
        0 <= i < runs.len(),
        rle_bytes(runs.take(i)).len() <= k,
        k < rle_bytes(runs.take(i)).len() + runs[i].1 + 1,
    ensures
        0 <= k < rle_bytes(runs).len(),
        rle_bytes(runs)[k] == runs[i].0,
{
    lemma_rle_bytes_take_step(runs, i);
    lemma_rle_bytes_split(runs, i + 1);
}

/// A later run begins at or after the end of an earlier one.
pub proof fn lemma_run_start_order(runs: Seq<(u8, u16)>, a: int, b: int)
    requires
        0 <= a < b <= runs.len(),
    ensures
        run_start(runs, a) + runs[a].1 + 1 <= run_start(runs, b),
{
    lemma_rle_bytes_take_step(runs, a);
    assert(runs.take(b) =~= runs.take(a + 1) + runs.subrange(a + 1, b));
    lemma_rle_bytes_append(runs.take(a + 1), runs.subrange(a + 1, b));
}

/// At most one run covers any byte offset.
pub proof fn lemma_covers_unique(runs: Seq<(u8, u16)>, i: int, j: int, k: int)
    requires
        0 <= i < runs.len(),
        0 <= j < runs.len(),
        covers(runs, i, k),
        covers(runs, j, k),
    ensures
        i == j,
{
    if i < j {
        lemma_run_start_order(runs, i, j);
    }
    if j < i {
        lemma_run_start_order(runs, j, i);
    }
}

/// Replacing run `i` by runs that stand for the same span with one byte
/// changed updates exactly that byte of the whole sequence.
pub proof fn lemma_rle_splice(runs: Seq<(u8, u16)>, i: int, mid: Seq<(u8, u16)>, x: int, nv: u8)
    requires
        0 <= i < runs.len(),
        0 <= x <= runs[i].1,
        rle_bytes(mid) == run_bytes(runs[i]).update(x, nv),
    ensures
        rle_bytes(runs.take(i) + mid + runs.skip(i + 1)) == rle_bytes(runs).update(
            rle_bytes(runs.take(i)).len() + x,
            nv,
        ),
{
    lemma_rle_bytes_append(runs.take(i), mid);
    lemma_rle_bytes_append(runs.take(i) + mid, runs.skip(i + 1));
    lemma_rle_bytes_take_step(runs, i);
    lemma_rle_bytes_split(runs, i + 1);
    assert(rle_bytes(runs.take(i) + mid + runs.skip(i + 1)) =~= rle_bytes(runs).update(
        rle_bytes(runs.take(i)).len() + x,
        nv,
    ));
}

/// Store one run: the kept length field is the actual length minus one.
pub fn encode_run(value: u8, run_length: usize) -> (r: (u8, u16))
    requires
        1 <= run_length <= MAX_RUN,
    ensures
        r.0 == value,
        r.1 as int == run_length - 1,
        run_bytes(r) == Seq::new(run_length as nat, |i: int| value),
{
    proof {
        assert(run_bytes((value, (run_length - 1) as u16)) =~= Seq::new(
            run_length as nat,
            |i: int| value,
        ));
    }
    (value, (run_length - 1) as u16)
}

/// Run-length encode a packed byte array by a left-to-right scan that merges
/// consecutive identical bytes, capping each run at `MAX_RUN` bytes: the
/// runs decode back to the input and are maximal, so adjacent runs share a
/// value only where the cap forced a longer span apart.
pub fn create_rle(packed: &Vec<u8>) -> (runs: Vec<(u8, u16)>)
    requires
        packed@.len() >= 1,
    ensures
        rle_bytes(runs@) == packed@,
        runs@.len() >= 1,
        runs_maximal(runs@),
{
    let mut encoded: Vec<(u8, u16)> = Vec::new();
    let mut current: u8 = packed[0];
    let mut run_length: usize = 1;
    let mut i: usize = 1;
    proof {
        assert(rle_bytes(encoded@) + Seq::new(1nat, |j: int| current) =~= packed@.take(1));
    }
    while i < packed.len()
        invariant
            1 <= i <= packed@.len(),
            1 <= run_length <= MAX_RUN,
            run_length <= i,
            rle_bytes(encoded@) + Seq::new(run_length as nat, |j: int| current) == packed@.take(
                i as int,
            ),
            runs_maximal(encoded@),
            encoded@.len() > 0 ==> (encoded@.last().0 != current || encoded@.last().1 == (MAX_RUN
                - 1) as u16),
        decreases packed@.len() - i,
    {
        let b = packed[i];
        if b == current && run_length < MAX_RUN {
            run_length += 1;
            proof {
                let lhs = rle_bytes(encoded@) + Seq::new(run_length as nat, |j: int| current);
                let prev = rle_bytes(encoded@) + Seq::new((run_length - 1) as nat, |j: int| current);
                let rhs = packed@.take(i as int + 1);
                assert(prev == packed@.take(i as int));
                assert(lhs.len() == rhs.len());
                assert forall|k: int| 0 <= k < lhs.len() implies lhs[k] == rhs[k] by {
                    if k < i {
                        assert(prev[k] == packed@.take(i as int)[k]);
                    }
                }
                assert(lhs =~= rhs);
            }
        } else {
            let ghost pre = encoded@;
            encoded.push(encode_run(current, run_length));
            proof {
                lemma_rle_bytes_push(pre, (current, (run_length - 1) as u16));
                assert(rle_bytes(encoded@) =~= packed@.take(i as int));
                assert(rle_bytes(encoded@) + Seq::new(1nat, |j: int| b) =~= packed@.take(
                    i as int + 1,
                ));
                assert forall|k: int| 0 <= k < encoded@.len() - 1 implies (encoded@[k].0
                    != encoded@[k + 1].0 || encoded@[k].1 == (MAX_RUN - 1) as u16) by {
                    if k < pre.len() - 1 {
                        assert(encoded@[k] == pre[k] && encoded@[k + 1] == pre[k + 1]);
                    } else {
                        assert(encoded@[k] == pre.last() && encoded@[k + 1] == (current, (run_length
                            - 1) as u16));
                    }
                }
                assert(encoded@.last().0 != b || encoded@.last().1 == (MAX_RUN - 1) as u16);
            }
            current = b;
            run_length = 1;
        }
        i += 1;
    }
    let ghost pre = encoded@;
    encoded.push(encode_run(current, run_length));
    proof {
        lemma_rle_bytes_push(pre, (current, (run_length - 1) as u16));
        assert(rle_bytes(encoded@) =~= packed@);
        assert forall|k: int| 0 <= k < encoded@.len() - 1 implies (encoded@[k].0 != encoded@[k
            + 1].0 || encoded@[k].1 == (MAX_RUN - 1) as u16) by {
            if k < pre.len() - 1 {
                assert(encoded@[k] == pre[k] && encoded@[k + 1] == pre[k + 1]);
            } else {
                assert(encoded@[k] == pre.last() && encoded@[k + 1] == (current, (run_length
                    - 1) as u16));
            }
        }
    }
    encoded
}

} // verus!
