//! Reading a stream of differences one byte at a time, as a reader hands them over.

use vstd::prelude::*;
use crate::curve_model::detangled;
use crate::delta_stream::{decoded_from, lemma_decoded_first};
use crate::hilbert_curve::BytewiseCached;
use crate::varint::{
    first_diff, first_len, has_first, leading_zeros, spelled, lemma_spelled_bound,
    lemma_spelled_positive,
};
use crate::delta_stream::lemma_zeros_counted;

verus! {

/// Where a reader stands in a stream: the last value that it has read, what it has of
/// the next difference, and how many bytes of that difference are to come after the next.
pub struct ScanState {
    pub current: u64,
    pub delta: u64,
    pub depth: u8,
}

/// The state of a reader before the stream, with `start` as the value to count from.
pub open spec fn scan_start(start: u64) -> ScanState {
    ScanState { current: start, delta: 0, depth: 0 }
}

/// Whether the byte opens or lengthens the run of zero bytes before a difference.
pub open spec fn scan_pads(state: ScanState, byte: u8) -> bool {
    byte == 0 && state.delta == 0
}

/// Whether the byte completes a difference.
pub open spec fn scan_completes(state: ScanState, byte: u8) -> bool {
    !scan_pads(state, byte) && state.depth == 0
}

/// Whether a reader in the state `state` can take `byte`: the run of zero bytes stays
/// below 256, the difference stays within 64 bits, and so does the value that a
/// completed difference gives.
pub open spec fn scan_accepts(state: ScanState, byte: u8) -> bool {
    if scan_pads(state, byte) {
        state.depth < 255
    } else {
        &&& state.delta < 0x100_0000_0000_0000
        &&& state.depth == 0 ==> state.current + state.delta * 256 + byte <= u64::MAX
    }
}

/// The state in which `byte` leaves a reader.
pub open spec fn scan_step(state: ScanState, byte: u8) -> ScanState {
    if scan_pads(state, byte) {
        ScanState { depth: (state.depth + 1) as u8, ..state }
    } else if state.depth == 0 {
        ScanState { current: (state.current + state.delta * 256 + byte) as u64, delta: 0, depth: 0 }
    } else {
        ScanState { delta: (state.delta * 256 + byte) as u64, depth: (state.depth - 1) as u8, ..state }
    }
}

/// The state in which `bytes` leave a reader, and the values that it has read on the way.
pub open spec fn scanned(state: ScanState, bytes: Seq<u8>) -> (ScanState, Seq<u64>)
    decreases bytes.len(),
{
    if bytes.len() == 0 {
        (state, Seq::empty())
    } else {
        let before = scanned(state, bytes.drop_last());
        let after = scan_step(before.0, bytes.last());
        if scan_completes(before.0, bytes.last()) {
            (after, before.1.push(after.current))
        } else {
            (after, before.1)
        }
    }
}

/// Whether a reader in the state `state` can take all of `bytes`.
pub open spec fn scan_runs(state: ScanState, bytes: Seq<u8>) -> bool {
    forall|i: int| 0 <= i < bytes.len() ==> scan_accepts(#[trigger] scanned(state, bytes.take(i)).0, bytes[i])
}

/// Reading two stretches of bytes one after the other is reading them as one.
pub proof fn lemma_scanned_append(state: ScanState, first: Seq<u8>, second: Seq<u8>)
    ensures
        scanned(state, first + second).0 == scanned(scanned(state, first).0, second).0,
        scanned(state, first + second).1 == scanned(state, first).1 + scanned(scanned(state, first).0, second).1,
    decreases second.len(),
{
    if second.len() == 0 {
        assert(first + second =~= first);
        assert(scanned(state, first).1 + Seq::<u64>::empty() =~= scanned(state, first).1);
    } else {
        lemma_scanned_append(state, first, second.drop_last());
        assert((first + second).drop_last() =~= first + second.drop_last());
        let middle = scanned(state, first);
        let before = scanned(middle.0, second.drop_last());
        assert(middle.1 + before.1.push(scan_step(before.0, second.last()).current) =~= (middle.1 + before.1).push(
            scan_step(before.0, second.last()).current,
        ));
    }
}

/// A reader that can take two stretches of bytes one after the other can take them as
/// one.
pub proof fn lemma_scan_runs_append(state: ScanState, first: Seq<u8>, second: Seq<u8>)
    requires
        scan_runs(state, first),
        scan_runs(scanned(state, first).0, second),
    ensures
        scan_runs(state, first + second),
{
    let bytes = first + second;
    assert forall|i: int| 0 <= i < bytes.len() implies scan_accepts(
        #[trigger] scanned(state, bytes.take(i)).0,
        bytes[i],
    ) by {
        if i < first.len() {
            assert(bytes.take(i) =~= first.take(i));
            assert(scan_accepts(scanned(state, first.take(i)).0, first[i]));
        } else {
            let j = i - first.len();
            assert(bytes.take(i) =~= first + second.take(j));
            lemma_scanned_append(state, first, second.take(j));
            assert(scan_accepts(scanned(scanned(state, first).0, second.take(j)).0, second[j]));
        }
    }
}

/// What a reader has after the zero bytes of a difference and `taken` of the bytes behind
/// them: nothing read yet, the bytes taken as the difference so far, and the count of the
/// bytes to come after the next.
proof fn lemma_scan_within(start: u64, bytes: Seq<u8>, taken: nat)
    requires
        has_first(bytes),
        taken <= leading_zeros(bytes),
    ensures
        scan_runs(scan_start(start), bytes.take((leading_zeros(bytes) + taken) as int)),
        scanned(scan_start(start), bytes.take((leading_zeros(bytes) + taken) as int)) == (
            ScanState {
                current: start,
                delta: spelled(bytes.subrange(leading_zeros(bytes) as int, (leading_zeros(bytes) + taken) as int)) as u64,
                depth: (leading_zeros(bytes) - taken) as u8,
            },
            Seq::<u64>::empty(),
        ),
        taken > 0 ==> 0 < spelled(bytes.subrange(leading_zeros(bytes) as int, (leading_zeros(bytes) + taken) as int)),
        spelled(bytes.subrange(leading_zeros(bytes) as int, (leading_zeros(bytes) + taken) as int)) < 0x100_0000_0000_0000,
    decreases taken,
{
    let k = leading_zeros(bytes);
    lemma_zeros_counted(bytes);
    if taken == 0 {
        lemma_scan_zeros(start, bytes, k);
        assert(bytes.subrange(k as int, k as int) =~= Seq::<u8>::empty());
    } else {
        lemma_scan_within(start, bytes, (taken - 1) as nat);
        let n = k + taken;
        let prefix = bytes.take(n as int);
        let so_far = bytes.subrange(k as int, n - 1);
        let digits = bytes.subrange(k as int, n as int);
        assert(prefix.drop_last() =~= bytes.take(n - 1));
        assert(digits.drop_last() =~= so_far);
        assert(digits.last() == bytes[n - 1]);
        assert(prefix.last() == bytes[n - 1]);
        lemma_spelled_bound(so_far);
        lemma_spelled_bound(digits);
        assert(digits[0] == bytes[k as int]);
        lemma_spelled_positive(digits);
        let before = scanned(scan_start(start), bytes.take(n - 1));
        assert(!scan_pads(before.0, bytes[n - 1]));
        assert forall|i: int| 0 <= i < prefix.len() implies scan_accepts(
            #[trigger] scanned(scan_start(start), prefix.take(i)).0,
            prefix[i],
        ) by {
            if i < n - 1 {
                assert(prefix.take(i) =~= bytes.take(n - 1).take(i));
                assert(scan_accepts(scanned(scan_start(start), bytes.take(n - 1).take(i)).0, bytes.take(n - 1)[i]));
            } else {
                assert(prefix.take(i) =~= bytes.take(n - 1));
            }
        }
    }
}

/// What a reader has after `n` of the zero bytes of a difference.
proof fn lemma_scan_zeros(start: u64, bytes: Seq<u8>, n: nat)
    requires
        has_first(bytes),
        n <= leading_zeros(bytes),
    ensures
        scan_runs(scan_start(start), bytes.take(n as int)),
        scanned(scan_start(start), bytes.take(n as int)) == (
            ScanState { current: start, delta: 0, depth: n as u8 },
            Seq::<u64>::empty(),
        ),
    decreases n,
{
    lemma_zeros_counted(bytes);
    if n > 0 {
        lemma_scan_zeros(start, bytes, (n - 1) as nat);
        let prefix = bytes.take(n as int);
        assert(prefix.drop_last() =~= bytes.take(n - 1));
        assert(prefix.last() == bytes[n - 1]);
        assert forall|i: int| 0 <= i < prefix.len() implies scan_accepts(
            #[trigger] scanned(scan_start(start), prefix.take(i)).0,
            prefix[i],
        ) by {
            if i < n - 1 {
                assert(prefix.take(i) =~= bytes.take(n - 1).take(i));
                assert(scan_accepts(scanned(scan_start(start), bytes.take(n - 1).take(i)).0, bytes.take(n - 1)[i]));
            } else {
                assert(prefix.take(i) =~= bytes.take(n - 1));
            }
        }
    }
}

/// A reader takes a whole difference and reads the value that it gives.
proof fn lemma_scan_first(start: u64, bytes: Seq<u8>)
    requires
        has_first(bytes),
        start + first_diff(bytes) <= u64::MAX,
    ensures
        scan_runs(scan_start(start), bytes.take(first_len(bytes) as int)),
        scanned(scan_start(start), bytes.take(first_len(bytes) as int)) == (
            scan_start((start + first_diff(bytes)) as u64),
            seq![(start + first_diff(bytes)) as u64],
        ),
{
    let k = leading_zeros(bytes);
    let n = first_len(bytes);
    lemma_zeros_counted(bytes);
    lemma_scan_within(start, bytes, k);
    let prefix = bytes.take(n as int);
    let so_far = bytes.subrange(k as int, n - 1);
    let digits = bytes.subrange(k as int, n as int);
    assert(prefix.drop_last() =~= bytes.take(n - 1));
    assert(digits.drop_last() =~= so_far);
    assert(digits.last() == bytes[n - 1]);
    assert(prefix.last() == bytes[n - 1]);
    assert(digits[0] == bytes[k as int]);
    lemma_spelled_positive(digits);
    let before = scanned(scan_start(start), bytes.take(n - 1));
    assert(!scan_pads(before.0, bytes[n - 1]));
    assert(before.0.depth == 0);
    assert(scanned(scan_start(start), prefix).1 =~= seq![(start + first_diff(bytes)) as u64]);
    assert forall|i: int| 0 <= i < prefix.len() implies scan_accepts(
        #[trigger] scanned(scan_start(start), prefix.take(i)).0,
        prefix[i],
    ) by {
        if i < n - 1 {
            assert(prefix.take(i) =~= bytes.take(n - 1).take(i));
            assert(scan_accepts(scanned(scan_start(start), bytes.take(n - 1).take(i)).0, bytes.take(n - 1)[i]));
        } else {
            assert(prefix.take(i) =~= bytes.take(n - 1));
        }
    }
}

/// A reader takes every stream of increasing values, reads the values that the stream
/// holds, and ends between two differences.
pub proof fn lemma_scan_stream(start: u64, bytes: Seq<u8>)
    requires
        decoded_from(bytes, start as nat) is Some,
    ensures
        scan_runs(scan_start(start), bytes),
        scanned(scan_start(start), bytes).1 == decoded_from(bytes, start as nat).unwrap(),
        scanned(scan_start(start), bytes).0 == scan_start(scanned(scan_start(start), bytes).0.current),
    decreases bytes.len(),
{
    if bytes.len() > 0 {
        lemma_decoded_first(bytes, start as nat);
        let n = first_len(bytes) as int;
        let value = (start + first_diff(bytes)) as u64;
        let first = bytes.take(n);
        let rest = bytes.skip(n);
        lemma_scan_first(start, bytes);
        lemma_scan_stream(value, rest);
        assert(first + rest =~= bytes);
        lemma_scanned_append(scan_start(start), first, rest);
        lemma_scan_runs_append(scan_start(start), first, rest);
    }
}

/// What a reader has read of a stream is the beginning of what the stream holds.
pub proof fn lemma_scan_prefix(start: u64, bytes: Seq<u8>, n: int)
    requires
        decoded_from(bytes, start as nat) is Some,
        0 <= n <= bytes.len(),
    ensures
        scanned(scan_start(start), bytes.take(n)).1.len() <= decoded_from(bytes, start as nat).unwrap().len(),
        scanned(scan_start(start), bytes.take(n)).1 == decoded_from(bytes, start as nat).unwrap().take(
            scanned(scan_start(start), bytes.take(n)).1.len() as int,
        ),
        n == bytes.len() ==> scanned(scan_start(start), bytes.take(n)).1 == decoded_from(bytes, start as nat).unwrap(),
{
    lemma_scan_stream(start, bytes);
    lemma_scanned_append(scan_start(start), bytes.take(n), bytes.skip(n));
    assert(bytes.take(n) + bytes.skip(n) =~= bytes);
    let read = scanned(scan_start(start), bytes.take(n)).1;
    let all = decoded_from(bytes, start as nat).unwrap();
    assert(read =~= all.take(read.len() as int));
    if n == bytes.len() {
        assert(bytes.take(n) =~= bytes);
    }
}

/// A reader of the edges of a stream that is handed over byte by byte.
pub struct DeltaScanner {
    hilbert: BytewiseCached,
    current: u64,
    delta: u64,
    depth: u8,
}

impl DeltaScanner {
    /// Where the reader stands in the stream.
    pub closed spec fn state(&self) -> ScanState {
        ScanState { current: self.current, delta: self.delta, depth: self.depth }
    }

    /// A reader before the stream.
    pub fn new() -> (out: DeltaScanner)
        ensures
            out.state() == scan_start(0),
    {
        DeltaScanner { hilbert: BytewiseCached::new(), current: 0, delta: 0, depth: 0 }
    }

    /// Whether the reader can take `byte`.
    pub fn can_take(&self, byte: u8) -> (ok: bool)
        ensures
            ok == scan_accepts(self.state(), byte),
    {
        if byte == 0 && self.delta == 0 {
            self.depth < 255
        } else if self.delta >= 0x100_0000_0000_0000 {
            false
        } else if self.depth == 0 {
            self.delta * 256 + byte as u64 <= u64::MAX - self.current
        } else {
            true
        }
    }

    /// Whether the reader stands between two differences, where a stream may end.
    pub fn is_between(&self) -> (ok: bool)
        ensures
            ok == (self.state() == scan_start(self.state().current)),
    {
        self.delta == 0 && self.depth == 0
    }

    /// Takes one byte of the stream. Returns the edge at the index that the byte
    /// completes, if it completes one.
    pub fn feed(&mut self, byte: u8) -> (out: Option<(u32, u32)>)
        requires
            scan_accepts(old(self).state(), byte),
        ensures
            final(self).state() == scan_step(old(self).state(), byte),
            out == (if scan_completes(old(self).state(), byte) {
                Some(detangled(final(self).state().current))
            } else {
                None
            }),
    {
        if byte == 0 && self.delta == 0 {
            self.depth += 1;
            None
        } else {
            let delta: u64 = self.delta;
            assert((delta << 8u64) == delta * 256) by (bit_vector)
                requires
                    delta < 0x100_0000_0000_0000u64,
            ;
            self.delta = (self.delta << 8) + (byte as u64);
            if self.depth == 0 {
                self.current += self.delta;
                self.delta = 0;
                Some(self.hilbert.detangle(self.current))
            } else {
                self.depth -= 1;
                None
            }
        }
    }
}

} // verus!
