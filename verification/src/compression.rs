//! Delta and run-length compression of screen frames.
//!
//! A frame is a 4-byte header followed by pixels of 2 bytes each.  The
//! compressed frame keeps the header and then, pixel by pixel:
//! * an even byte `2 * k`: this pixel and the `k` following ones are the
//!   same as in the previous frame (only when the previous frame is used);
//! * `b1 + 2, b2, k`: the pixel `(b1, b2)` followed by `k > 0` copies of it;
//! * `b1, b2`: the pixel `(b1, b2)` on its own.
use vstd::prelude::*;

verus! {

/// Most pixels after the first that one "unchanged" code covers.
pub const MAX_UNCHANGED_RUN: u8 = 127;

/// Most copies after the first that one run code covers.
pub const MAX_REPEAT_RUN: u8 = 255;

/// Number of consecutive pixels, starting at byte offset `i` of `data`, that
/// equal the bytes of `prev` at the same offsets, counting at most `limit`.
/// `None` when the comparison would read `prev` out of bounds.
pub open spec fn unchanged_run(data: Seq<u8>, prev: Seq<u8>, i: int, limit: nat) -> Option<nat>
    decreases limit,
{
    if limit == 0 || i + 1 >= data.len() {
        Some(0)
    } else if i >= prev.len() {
        None
    } else if data[i] != prev[i] {
        Some(0)
    } else if i + 1 >= prev.len() {
        None
    } else if data[i + 1] != prev[i + 1] {
        Some(0)
    } else {
        match unchanged_run(data, prev, i + 2, (limit - 1) as nat) {
            Some(k) => Some(k + 1),
            None => None,
        }
    }
}

/// Number of consecutive pixels, starting at byte offset `i` of `data`, that
/// equal the pixel `(b1, b2)`, counting at most `limit`.
pub open spec fn repeat_run(data: Seq<u8>, i: int, b1: u8, b2: u8, limit: nat) -> nat
    decreases limit,
{
    if limit == 0 || i + 1 >= data.len() {
        0
    } else if data[i] == b1 && data[i + 1] == b2 {
        1 + repeat_run(data, i + 2, b1, b2, (limit - 1) as nat)
    } else {
        0
    }
}

/// The compressed pixels of `data` from byte offset `i` on; `None` when the
/// compressor fails on them (an odd trailing byte, a previous frame too short
/// to compare with, or a run whose first byte cannot take the run mark).
pub open spec fn compress_from(data: Seq<u8>, prev: Seq<u8>, ignore_prev: bool, i: int) -> Option<
    Seq<u8>,
>
    decreases data.len() - i,
{
    if i < 0 || i >= data.len() {
        Some(seq![])
    } else if i + 1 >= data.len() {
        None
    } else if !ignore_prev && i + 1 >= prev.len() {
        None
    } else if !ignore_prev && data[i] == prev[i] && data[i + 1] == prev[i + 1] {
        match unchanged_run(data, prev, i + 2, MAX_UNCHANGED_RUN as nat) {
            None => None,
            Some(k) => match {
                proof {
                    lemma_unchanged_run_bound(data, prev, i + 2, MAX_UNCHANGED_RUN as nat);
                }
                compress_from(data, prev, ignore_prev, i + 2 + 2 * k)
            } {
                None => None,
                Some(rest) => Some(seq![(2 * k) as u8] + rest),
            },
        }
    } else {
        let b1 = data[i];
        let b2 = data[i + 1];
        let k = repeat_run(data, i + 2, b1, b2, MAX_REPEAT_RUN as nat);
        proof {
            lemma_repeat_run_bound(data, i + 2, b1, b2, MAX_REPEAT_RUN as nat);
        }
        match compress_from(data, prev, ignore_prev, i + 2 + 2 * k) {
            None => None,
            Some(rest) => if k == 0 {
                Some(seq![b1, b2] + rest)
            } else if b1 + 2 > 255 {
                None
            } else {
                Some(seq![(b1 + 2) as u8, b2, k as u8] + rest)
            },
        }
    }
}

/// The compressed frame: the header unchanged, then the compressed pixels.
pub open spec fn compressed(data: Seq<u8>, prev: Seq<u8>, ignore_prev: bool) -> Option<Seq<u8>> {
    if data.len() < 4 {
        None
    } else {
        match compress_from(data, prev, ignore_prev, 4) {
            Some(rest) => Some(data.take(4) + rest),
            None => None,
        }
    }
}

/// A frame in the screen format: a 4-byte header, whole pixels, and the
/// first byte of every pixel marked with the low bits `01`.
pub open spec fn is_frame(data: Seq<u8>) -> bool {
    &&& data.len() >= 4
    &&& data.len() % 2 == 0
    &&& forall|j: int| 4 <= j < data.len() && j % 2 == 0 ==> #[trigger] data[j] % 4 == 1
}

/// The run of unchanged pixels is at most `limit` long and stays inside `data`.
pub proof fn lemma_unchanged_run_bound(data: Seq<u8>, prev: Seq<u8>, i: int, limit: nat)
    requires
        unchanged_run(data, prev, i, limit) is Some,
    ensures
        unchanged_run(data, prev, i, limit).unwrap() <= limit,
        unchanged_run(data, prev, i, limit).unwrap() > 0 ==> i + 2 * unchanged_run(
            data,
            prev,
            i,
            limit,
        ).unwrap() <= data.len(),
    decreases limit,
{
    if limit == 0 || i + 1 >= data.len() {
    } else if i >= prev.len() || data[i] != prev[i] || i + 1 >= prev.len() || data[i + 1]
        != prev[i + 1] {
    } else {
        lemma_unchanged_run_bound(data, prev, i + 2, (limit - 1) as nat);
    }
}

/// The run of repeated pixels is at most `limit` long and stays inside `data`.
pub proof fn lemma_repeat_run_bound(data: Seq<u8>, i: int, b1: u8, b2: u8, limit: nat)
    ensures
        repeat_run(data, i, b1, b2, limit) <= limit,
        repeat_run(data, i, b1, b2, limit) > 0 ==> i + 2 * repeat_run(data, i, b1, b2, limit)
            <= data.len(),
    decreases limit,
{
    if limit == 0 || i + 1 >= data.len() {
    } else if data[i] == b1 && data[i + 1] == b2 {
        lemma_repeat_run_bound(data, i + 2, b1, b2, (limit - 1) as nat);
    }
}

/// Counts the pixels from offset `start` on that repeat `(b1, b2)`.
fn count_repeats(data: &Vec<u8>, start: usize, b1: u8, b2: u8) -> (k: u8)
    requires
        start <= data.len(),
    ensures
        k as nat == repeat_run(data@, start as int, b1, b2, MAX_REPEAT_RUN as nat),
{
    let mut i = start;
    let mut k: u8 = 0;
    while k < MAX_REPEAT_RUN && data.len() - i >= 2 && data[i] == b1 && data[i + 1] == b2
        invariant
            start <= i <= data.len(),
            i == start + 2 * k,
            k <= MAX_REPEAT_RUN,
            repeat_run(data@, start as int, b1, b2, MAX_REPEAT_RUN as nat) == k + repeat_run(
                data@,
                i as int,
                b1,
                b2,
                (MAX_REPEAT_RUN - k) as nat,
            ),
        decreases MAX_REPEAT_RUN - k,
    {
        k = k + 1;
        i = i + 2;
    }
    k
}

/// Counts the pixels from offset `start` on that are unchanged from `prev`.
fn count_unchanged(data: &Vec<u8>, prev: &Vec<u8>, start: usize) -> (k: u8)
    requires
        start <= data.len(),
        unchanged_run(data@, prev@, start as int, MAX_UNCHANGED_RUN as nat) is Some,
    ensures
        Some(k as nat) == unchanged_run(data@, prev@, start as int, MAX_UNCHANGED_RUN as nat),
{
    let mut i = start;
    let mut k: u8 = 0;
    while k < MAX_UNCHANGED_RUN && data.len() - i >= 2 && data[i] == prev[i] && data[i + 1]
        == prev[i + 1]
        invariant
            start <= i <= data.len(),
            i == start + 2 * k,
            k <= MAX_UNCHANGED_RUN,
            unchanged_run(data@, prev@, i as int, (MAX_UNCHANGED_RUN - k) as nat) is Some,
            unchanged_run(data@, prev@, start as int, MAX_UNCHANGED_RUN as nat) == Some(
                (k + unchanged_run(data@, prev@, i as int, (MAX_UNCHANGED_RUN - k) as nat).unwrap())
                    as nat,
            ),
        decreases MAX_UNCHANGED_RUN - k,
    {
        k = k + 1;
        i = i + 2;
    }
    k
}

/// Compresses `data` against the previous frame `previous_data` (or on its
/// own when `ignore_previous_data` holds).
pub fn compress_frame(data: Vec<u8>, previous_data: &Vec<u8>, ignore_previous_data: bool) -> (res:
    Vec<u8>)
    requires
        compressed(data@, previous_data@, ignore_previous_data) is Some,
    ensures
        compressed(data@, previous_data@, ignore_previous_data) == Some(res@),
{
    let ghost d = data@;
    let ghost p = previous_data@;
    let ghost ig = ignore_previous_data;
    let mut out: Vec<u8> = Vec::new();
    out.push(data[0]);
    out.push(data[1]);
    out.push(data[2]);
    out.push(data[3]);
    assert(out@ =~= d.take(4));
    let mut i: usize = 4;
    while i < data.len()
        invariant
            d == data@,
            p == previous_data@,
            ig == ignore_previous_data,
            4 <= i <= data.len(),
            compress_from(d, p, ig, i as int) is Some,
            compressed(d, p, ig) == Some(out@ + compress_from(d, p, ig, i as int).unwrap()),
        decreases data.len() - i,
    {
        let byte1 = data[i];
        let byte2 = data[i + 1];
        let same = !ignore_previous_data && byte1 == previous_data[i] && byte2 == previous_data[i
            + 1];
        if same {
            proof {
                lemma_unchanged_run_bound(d, p, i + 2, MAX_UNCHANGED_RUN as nat);
            }
            let k = count_unchanged(&data, previous_data, i + 2);
            let ghost rest = compress_from(d, p, ig, i + 2 + 2 * k).unwrap();
            let ghost old_out = out@;
            out.push(k * 2);
            assert(old_out + (seq![(2 * k) as u8] + rest) =~= out@ + rest);
            i = i + 2 + 2 * (k as usize);
        } else {
            let k = count_repeats(&data, i + 2, byte1, byte2);
            proof {
                lemma_repeat_run_bound(d, i + 2, byte1, byte2, MAX_REPEAT_RUN as nat);
            }
            let ghost rest = compress_from(d, p, ig, i + 2 + 2 * k).unwrap();
            let ghost old_out = out@;
            if k > 0 {
                out.push(byte1 + 2);
                out.push(byte2);
                out.push(k);
                assert(old_out + (seq![(byte1 + 2) as u8, byte2, k] + rest) =~= out@ + rest);
            } else {
                out.push(byte1);
                out.push(byte2);
                assert(old_out + (seq![byte1, byte2] + rest) =~= out@ + rest);
            }
            i = i + 2 + 2 * (k as usize);
        }
    }
    assert(out@ + seq![] =~= out@);
    out
}

/// `n` copies of the pixel `(b1, b2)`.
pub open spec fn repeat_pixel(b1: u8, b2: u8, n: nat) -> Seq<u8>
    decreases n,
{
    if n == 0 {
        seq![]
    } else {
        seq![b1, b2] + repeat_pixel(b1, b2, (n - 1) as nat)
    }
}

/// Reads compressed pixels back, with `prev` the previous frame and `pos`
/// the byte offset of the first pixel that `code` describes.
pub open spec fn decode_pixels(prev: Seq<u8>, code: Seq<u8>, pos: int) -> Seq<u8>
    decreases code.len(),
{
    if code.len() == 0 {
        seq![]
    } else if code[0] % 2 == 0 {
        let n = 2 * (code[0] / 2 + 1);
        prev.subrange(pos, pos + n) + decode_pixels(prev, code.drop_first(), pos + n)
    } else if code[0] % 4 == 3 && code.len() >= 3 {
        let n = code[2] + 1;
        repeat_pixel((code[0] - 2) as u8, code[1], n as nat) + decode_pixels(
            prev,
            code.skip(3),
            pos + 2 * n,
        )
    } else if code.len() >= 2 {
        seq![code[0], code[1]] + decode_pixels(prev, code.skip(2), pos + 2)
    } else {
        seq![]
    }
}

/// Reads a compressed frame back against the previous frame `prev`.
pub open spec fn decompressed(prev: Seq<u8>, code: Seq<u8>) -> Seq<u8> {
    code.take(4) + decode_pixels(prev, code.skip(4), 4)
}

proof fn lemma_unchanged_run_some(data: Seq<u8>, prev: Seq<u8>, i: int, limit: nat)
    requires
        prev.len() >= data.len(),
    ensures
        unchanged_run(data, prev, i, limit) is Some,
    decreases limit,
{
    if limit > 0 && i + 1 < data.len() {
        lemma_unchanged_run_some(data, prev, i + 2, (limit - 1) as nat);
    }
}

proof fn lemma_unchanged_run_same(data: Seq<u8>, prev: Seq<u8>, i: int, limit: nat)
    requires
        0 <= i,
        unchanged_run(data, prev, i, limit) is Some,
    ensures
        ({
            let k = unchanged_run(data, prev, i, limit).unwrap();
            k > 0 ==> i + 2 * k <= prev.len() && i + 2 * k <= data.len() && data.subrange(
                i,
                i + 2 * k,
            ) == prev.subrange(i, i + 2 * k)
        }),
    decreases limit,
{
    let k = unchanged_run(data, prev, i, limit).unwrap();
    if limit == 0 || i + 1 >= data.len() || data[i] != prev[i] || data[i + 1] != prev[i + 1] {
    } else {
        lemma_unchanged_run_same(data, prev, i + 2, (limit - 1) as nat);
        lemma_unchanged_run_bound(data, prev, i + 2, (limit - 1) as nat);
        assert(data.subrange(i, i + 2 * k) =~= seq![data[i], data[i + 1]] + data.subrange(
            i + 2,
            i + 2 * k,
        ));
        assert(prev.subrange(i, i + 2 * k) =~= seq![prev[i], prev[i + 1]] + prev.subrange(
            i + 2,
            i + 2 * k,
        ));
    }
}

proof fn lemma_repeat_run_same(data: Seq<u8>, i: int, b1: u8, b2: u8, limit: nat)
    requires
        0 <= i,
    ensures
        ({
            let k = repeat_run(data, i, b1, b2, limit);
            k > 0 ==> data.subrange(i, i + 2 * k) == repeat_pixel(b1, b2, k)
        }),
    decreases limit,
{
    let k = repeat_run(data, i, b1, b2, limit);
    if limit == 0 || i + 1 >= data.len() {
    } else if data[i] == b1 && data[i + 1] == b2 {
        lemma_repeat_run_same(data, i + 2, b1, b2, (limit - 1) as nat);
        lemma_repeat_run_bound(data, i + 2, b1, b2, (limit - 1) as nat);
        if k == 1 {
            assert(data.subrange(i, i + 2) =~= seq![b1, b2] + repeat_pixel(b1, b2, 0));
        } else {
            assert(data.subrange(i, i + 2 * k) =~= seq![b1, b2] + data.subrange(
                i + 2,
                i + 2 * k,
            ));
        }
    }
}

#[verifier::spinoff_prover]
#[verifier::rlimit(40)]
proof fn lemma_compress_from_roundtrip(data: Seq<u8>, prev: Seq<u8>, ignore_prev: bool, i: int)
    requires
        is_frame(data),
        compress_from(data, prev, ignore_prev, i) is Some,
        4 <= i <= data.len(),
        i % 2 == 0,
    ensures
        decode_pixels(prev, compress_from(data, prev, ignore_prev, i).unwrap(), i)
            == data.subrange(i, data.len() as int),
    decreases data.len() - i,
{
    if i == data.len() {
        assert(data.subrange(i, i) =~= Seq::<u8>::empty());
    } else {
        let b1 = data[i];
        let b2 = data[i + 1];
        assert(b1 % 4 == 1);
        if !ignore_prev && data[i] == prev[i] && data[i + 1] == prev[i + 1] {
            lemma_unchanged_run_bound(data, prev, i + 2, MAX_UNCHANGED_RUN as nat);
            lemma_unchanged_run_same(data, prev, i + 2, MAX_UNCHANGED_RUN as nat);
            let k = unchanged_run(data, prev, i + 2, MAX_UNCHANGED_RUN as nat).unwrap();
            let j = i + 2 + 2 * k;
            assert(j <= prev.len());
            lemma_compress_from_roundtrip(data, prev, ignore_prev, j);
            let rest = compress_from(data, prev, ignore_prev, j).unwrap();
            let code = seq![(2 * k) as u8] + rest;
            assert(code.drop_first() =~= rest);
            assert(code[0] == 2 * k);
            assert(data.subrange(i + 2, j) =~= prev.subrange(i + 2, j));
            assert(prev.subrange(i, j) =~= seq![prev[i], prev[i + 1]] + prev.subrange(i + 2, j));
            assert(data.subrange(i, data.len() as int) =~= seq![data[i], data[i + 1]]
                + data.subrange(i + 2, j) + data.subrange(j, data.len() as int));
        } else {
            let k = repeat_run(data, i + 2, b1, b2, MAX_REPEAT_RUN as nat);
            lemma_repeat_run_bound(data, i + 2, b1, b2, MAX_REPEAT_RUN as nat);
            lemma_repeat_run_same(data, i + 2, b1, b2, MAX_REPEAT_RUN as nat);
            let j = i + 2 + 2 * k;
            lemma_compress_from_roundtrip(data, prev, ignore_prev, j);
            let rest = compress_from(data, prev, ignore_prev, j).unwrap();
            if k == 0 {
                let code = seq![b1, b2] + rest;
                assert(code.skip(2) =~= rest);
                assert(data.subrange(i, data.len() as int) =~= seq![b1, b2] + data.subrange(
                    j,
                    data.len() as int,
                ));
            } else {
                let code = seq![(b1 + 2) as u8, b2, k as u8] + rest;
                assert(code.skip(3) =~= rest);
                assert(((b1 + 2) as u8) % 4 == 3);
                assert(repeat_pixel(b1, b2, k + 1) =~= seq![b1, b2] + repeat_pixel(b1, b2, k));
                assert(data.subrange(i, data.len() as int) =~= seq![b1, b2] + data.subrange(
                    i + 2,
                    j,
                ) + data.subrange(j, data.len() as int));
            }
        }
    }
}

/// Compression loses nothing: when a frame in the screen format compresses,
/// reading the result back against the same previous frame gives the frame
/// again.
pub proof fn lemma_compress_roundtrip(data: Seq<u8>, prev: Seq<u8>, ignore_prev: bool)
    requires
        is_frame(data),
        compressed(data, prev, ignore_prev) is Some,
    ensures
        decompressed(prev, compressed(data, prev, ignore_prev).unwrap()) == data,
{
    lemma_compress_from_roundtrip(data, prev, ignore_prev, 4);
    let rest = compress_from(data, prev, ignore_prev, 4).unwrap();
    let code = data.take(4) + rest;
    assert(code.take(4) =~= data.take(4));
    assert(code.skip(4) =~= rest);
    assert(data =~= data.take(4) + data.subrange(4, data.len() as int));
}

/// A simple condition under which a frame compresses: a header, whole
/// pixels, no pixel whose first byte is too large to take the run mark, and
/// a previous frame that covers this one when it is used.
pub open spec fn fits_compression(data: Seq<u8>, prev: Seq<u8>, ignore_prev: bool) -> bool {
    &&& data.len() >= 4
    &&& data.len() % 2 == 0
    &&& ignore_prev || prev.len() >= data.len()
    &&& forall|j: int| 4 <= j < data.len() && j % 2 == 0 ==> #[trigger] data[j] <= 253
}

proof fn lemma_fits_compress_from(data: Seq<u8>, prev: Seq<u8>, ignore_prev: bool, i: int)
    requires
        fits_compression(data, prev, ignore_prev),
        4 <= i <= data.len(),
        i % 2 == 0,
    ensures
        compress_from(data, prev, ignore_prev, i) is Some,
    decreases data.len() - i,
{
    if i < data.len() {
        let b1 = data[i];
        let b2 = data[i + 1];
        assert(b1 <= 253);
        if !ignore_prev && data[i] == prev[i] && data[i + 1] == prev[i + 1] {
            lemma_unchanged_run_some(data, prev, i + 2, MAX_UNCHANGED_RUN as nat);
            lemma_unchanged_run_bound(data, prev, i + 2, MAX_UNCHANGED_RUN as nat);
            let k = unchanged_run(data, prev, i + 2, MAX_UNCHANGED_RUN as nat).unwrap();
            lemma_fits_compress_from(data, prev, ignore_prev, i + 2 + 2 * k);
        } else {
            lemma_repeat_run_bound(data, i + 2, b1, b2, MAX_REPEAT_RUN as nat);
            let k = repeat_run(data, i + 2, b1, b2, MAX_REPEAT_RUN as nat);
            lemma_fits_compress_from(data, prev, ignore_prev, i + 2 + 2 * k);
        }
    }
}

/// Every frame that meets `fits_compression` compresses.
pub proof fn lemma_fits_compression(data: Seq<u8>, prev: Seq<u8>, ignore_prev: bool)
    requires
        fits_compression(data, prev, ignore_prev),
    ensures
        compressed(data, prev, ignore_prev) is Some,
{
    lemma_fits_compress_from(data, prev, ignore_prev, 4);
}

/// Checks `fits_compression`; when it holds, `compress_frame` may be called.
pub fn can_compress(data: &Vec<u8>, previous_data: &Vec<u8>, ignore_previous_data: bool) -> (r:
    bool)
    ensures
        r == fits_compression(data@, previous_data@, ignore_previous_data),
        r ==> compressed(data@, previous_data@, ignore_previous_data) is Some,
{
    if data.len() < 4 || data.len() % 2 != 0 {
        return false;
    }
    if !ignore_previous_data && previous_data.len() < data.len() {
        return false;
    }
    let mut j: usize = 4;
    while j < data.len()
        invariant
            4 <= j <= data.len(),
            data.len() % 2 == 0,
            j % 2 == 0,
            forall|i: int| 4 <= i < j && i % 2 == 0 ==> #[trigger] data@[i] <= 253,
        decreases data.len() - j,
    {
        if data[j] > 253 {
            return false;
        }
        j = j + 2;
    }
    proof {
        lemma_fits_compression(data@, previous_data@, ignore_previous_data);
    }
    true
}

/// Compression keeps the 4-byte header of the frame as it is.
pub proof fn lemma_compressed_keeps_header(data: Seq<u8>, prev: Seq<u8>, ignore_prev: bool)
    requires
        compressed(data, prev, ignore_prev) is Some,
    ensures
        compressed(data, prev, ignore_prev).unwrap().take(4) == data.take(4),
{
    let c = compressed(data, prev, ignore_prev).unwrap();
    assert(c.take(4) =~= data.take(4));
}

/// Every frame in the screen format compresses, on its own or against a
/// previous frame that covers it.
pub proof fn lemma_frame_compresses(data: Seq<u8>, prev: Seq<u8>, ignore_prev: bool)
    requires
        is_frame(data),
        ignore_prev || prev.len() >= data.len(),
    ensures
        compressed(data, prev, ignore_prev) is Some,
{
    assert forall|j: int| 4 <= j < data.len() && j % 2 == 0 implies #[trigger] data[j] <= 253 by {
        assert(data[j] % 4 == 1);
    }
    lemma_fits_compression(data, prev, ignore_prev);
}

/// `code` is made of literal tokens `(b1, b2)` and run tokens
/// `(b1 + 2, b2, k)` with `k > 0`, which together spell the pixels of
/// `data` from byte offset `i` to the end: no token refers to a previous
/// frame.
pub open spec fn pixel_tokens(data: Seq<u8>, code: Seq<u8>, i: int) -> bool
    decreases code.len(),
{
    if code.len() == 0 {
        i == data.len()
    } else {
        ||| {
            &&& code.len() >= 2
            &&& 0 <= i && i + 1 < data.len()
            &&& code[0] == data[i]
            &&& code[1] == data[i + 1]
            &&& pixel_tokens(data, code.skip(2), i + 2)
        }
        ||| {
            &&& code.len() >= 3
            &&& 0 <= i && i + 1 < data.len()
            &&& code[0] == data[i] + 2
            &&& code[1] == data[i + 1]
            &&& code[2] > 0
            &&& i + 2 + 2 * code[2] <= data.len()
            &&& data.subrange(i + 2, i + 2 + 2 * code[2]) == repeat_pixel(
                data[i],
                data[i + 1],
                code[2] as nat,
            )
            &&& pixel_tokens(data, code.skip(3), i + 2 + 2 * code[2])
        }
    }
}

proof fn lemma_compress_from_ignoring(data: Seq<u8>, p1: Seq<u8>, p2: Seq<u8>, i: int)
    requires
        0 <= i <= data.len(),
        compress_from(data, p1, true, i) is Some,
    ensures
        compress_from(data, p2, true, i) == compress_from(data, p1, true, i),
        pixel_tokens(data, compress_from(data, p1, true, i).unwrap(), i),
    decreases data.len() - i,
{
    if i < data.len() {
        let b1 = data[i];
        let b2 = data[i + 1];
        let k = repeat_run(data, i + 2, b1, b2, MAX_REPEAT_RUN as nat);
        lemma_repeat_run_bound(data, i + 2, b1, b2, MAX_REPEAT_RUN as nat);
        lemma_repeat_run_same(data, i + 2, b1, b2, MAX_REPEAT_RUN as nat);
        let j = i + 2 + 2 * k;
        lemma_compress_from_ignoring(data, p1, p2, j);
        let rest = compress_from(data, p1, true, j).unwrap();
        if k == 0 {
            let code = seq![b1, b2] + rest;
            assert(code.skip(2) =~= rest);
        } else {
            let code = seq![(b1 + 2) as u8, b2, k as u8] + rest;
            assert(code.skip(3) =~= rest);
            assert(code[2] == k);
        }
    } else {
        assert(compress_from(data, p1, true, i).unwrap() =~= Seq::<u8>::empty());
    }
}

/// With the previous frame ignored, compression does not depend on it, and
/// its result is the header followed only by literal and run tokens that
/// spell the frame's pixels.
pub proof fn lemma_compress_ignoring_previous(data: Seq<u8>, p1: Seq<u8>, p2: Seq<u8>)
    requires
        compressed(data, p1, true) is Some,
    ensures
        compressed(data, p2, true) == compressed(data, p1, true),
        compressed(data, p1, true).unwrap().take(4) == data.take(4),
        pixel_tokens(data, compressed(data, p1, true).unwrap().skip(4), 4),
{
    lemma_compress_from_ignoring(data, p1, p2, 4);
    let rest = compress_from(data, p1, true, 4).unwrap();
    let c = data.take(4) + rest;
    assert(c.take(4) =~= data.take(4));
    assert(c.skip(4) =~= rest);
}

proof fn lemma_unchanged_run_stops(data: Seq<u8>, prev: Seq<u8>, i: int, limit: nat)
    requires
        0 <= i,
        unchanged_run(data, prev, i, limit) is Some,
        unchanged_run(data, prev, i, limit).unwrap() < limit,
        i + 2 * unchanged_run(data, prev, i, limit).unwrap() + 1 < data.len(),
    ensures
        ({
            let j = i + 2 * unchanged_run(data, prev, i, limit).unwrap();
            j < prev.len() && (data[j] != prev[j] || (j + 1 < prev.len() && data[j + 1]
                != prev[j + 1]))
        }),
    decreases limit,
{
    if limit == 0 || i + 1 >= data.len() || data[i] != prev[i] || data[i + 1] != prev[i + 1] {
    } else {
        lemma_unchanged_run_stops(data, prev, i + 2, (limit - 1) as nat);
    }
}

proof fn lemma_repeat_run_stops(data: Seq<u8>, i: int, b1: u8, b2: u8, limit: nat)
    requires
        0 <= i,
        repeat_run(data, i, b1, b2, limit) < limit,
        i + 2 * repeat_run(data, i, b1, b2, limit) + 1 < data.len(),
    ensures
        ({
            let j = i + 2 * repeat_run(data, i, b1, b2, limit);
            !(data[j] == b1 && data[j + 1] == b2)
        }),
    decreases limit,
{
    if limit == 0 || i + 1 >= data.len() {
    } else if data[i] == b1 && data[i + 1] == b2 {
        lemma_repeat_run_stops(data, i + 2, b1, b2, (limit - 1) as nat);
    }
}

/// Runs are as long as they can be, so neighbouring tokens never describe
/// what one token could have: for a frame in the screen format, the token
/// that the compressor writes at a pixel offset `i`
/// * when it is "unchanged" (an even byte) and covers fewer than the most
///   pixels, is followed by a pixel that differs from the previous frame;
/// * when it is a run (first byte `b1 + 2`) of fewer than the most copies,
///   is followed by a pixel other than `(b1, b2)`;
/// * when it is a single pixel, is followed by a different pixel;
/// * when it writes a pixel out while the previous frame is used, that
///   pixel differs from the previous frame.
pub proof fn lemma_tokens_maximal(data: Seq<u8>, prev: Seq<u8>, ignore_prev: bool, i: int)
    requires
        is_frame(data),
        4 <= i < data.len(),
        i % 2 == 0,
        compress_from(data, prev, ignore_prev, i) is Some,
    ensures
        ({
            let c = compress_from(data, prev, ignore_prev, i).unwrap();
            &&& c.len() > 0
            &&& c[0] % 2 == 0 ==> {
                let j = i + c[0] + 2;
                &&& !ignore_prev
                &&& j <= data.len()
                &&& data.subrange(i, j) == prev.subrange(i, j)
                &&& c[0] < 2 * MAX_UNCHANGED_RUN && j + 1 < data.len() ==> !(data[j] == prev[j]
                    && data[j + 1] == prev[j + 1])
            }
            &&& c[0] % 4 == 3 ==> {
                let j = i + 2 + 2 * c[2];
                &&& c.len() >= 3
                &&& c[0] == data[i] + 2
                &&& c[1] == data[i + 1]
                &&& c[2] > 0
                &&& c[2] < MAX_REPEAT_RUN && j + 1 < data.len() ==> !(data[j] == data[i]
                    && data[j + 1] == data[i + 1])
            }
            &&& c[0] % 4 == 1 ==> {
                &&& c.len() >= 2
                &&& c[0] == data[i]
                &&& c[1] == data[i + 1]
                &&& i + 3 < data.len() ==> !(data[i + 2] == data[i] && data[i + 3] == data[i + 1])
            }
            &&& c[0] % 2 == 1 && !ignore_prev ==> !(data[i] == prev[i] && data[i + 1] == prev[i
                + 1])
        }),
{
    let b1 = data[i];
    let b2 = data[i + 1];
    assert(b1 % 4 == 1);
    if !ignore_prev && data[i] == prev[i] && data[i + 1] == prev[i + 1] {
        lemma_unchanged_run_bound(data, prev, i + 2, MAX_UNCHANGED_RUN as nat);
        lemma_unchanged_run_same(data, prev, i + 2, MAX_UNCHANGED_RUN as nat);
        let k = unchanged_run(data, prev, i + 2, MAX_UNCHANGED_RUN as nat).unwrap();
        let j = i + 2 + 2 * k;
        let rest = compress_from(data, prev, ignore_prev, j).unwrap();
        let c = seq![(2 * k) as u8] + rest;
        assert(c[0] == 2 * k);
        if k > 0 {
            assert(data.subrange(i, j) =~= seq![data[i], data[i + 1]] + data.subrange(i + 2, j));
            assert(prev.subrange(i, j) =~= seq![prev[i], prev[i + 1]] + prev.subrange(i + 2, j));
        } else {
            assert(data.subrange(i, j) =~= seq![data[i], data[i + 1]]);
            assert(prev.subrange(i, j) =~= seq![prev[i], prev[i + 1]]);
        }
        if k < MAX_UNCHANGED_RUN && j + 1 < data.len() {
            lemma_unchanged_run_stops(data, prev, i + 2, MAX_UNCHANGED_RUN as nat);
        }
    } else {
        let k = repeat_run(data, i + 2, b1, b2, MAX_REPEAT_RUN as nat);
        lemma_repeat_run_bound(data, i + 2, b1, b2, MAX_REPEAT_RUN as nat);
        let j = i + 2 + 2 * k;
        let rest = compress_from(data, prev, ignore_prev, j).unwrap();
        if k < MAX_REPEAT_RUN && j + 1 < data.len() {
            lemma_repeat_run_stops(data, i + 2, b1, b2, MAX_REPEAT_RUN as nat);
        }
        if k == 0 {
            let c = seq![b1, b2] + rest;
            assert(c[0] == b1 && c[1] == b2);
        } else {
            let c = seq![(b1 + 2) as u8, b2, k as u8] + rest;
            assert(c[0] == b1 + 2 && c[1] == b2 && c[2] == k);
            assert(((b1 + 2) as u8) % 4 == 3);
        }
    }
}

} // verus!
