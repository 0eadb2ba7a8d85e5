//! Per-file line-offset index.
use vstd::prelude::*;

verus! {

/// Machine numbers as integers.
pub open spec fn numbers(v: Seq<usize>) -> Seq<int> {
    Seq::new(v.len(), |i: int| v[i] as int)
}

/// How many line breaks stand before `o`.
pub open spec fn breaks_before(bytes: Seq<u8>, o: int) -> int
    decreases o,
{
    if o <= 0 {
        0
    } else {
        breaks_before(bytes, o - 1) + if bytes[o - 1] == 10 {
            1int
        } else {
            0int
        }
    }
}

/// Where the line that holds `o` starts.
pub open spec fn line_start(bytes: Seq<u8>, o: int) -> int
    decreases o,
{
    if o <= 0 {
        0
    } else if bytes[o - 1] == 10 {
        o
    } else {
        line_start(bytes, o - 1)
    }
}

/// Where the line after the one that holds `o` starts, or the end.
pub open spec fn next_line(bytes: Seq<u8>, o: int) -> int
    decreases bytes.len() - o,
{
    if o < 0 || o >= bytes.len() {
        bytes.len() as int
    } else if bytes[o] == 10 {
        o + 1
    } else {
        next_line(bytes, o + 1)
    }
}

/// The end of the text from `start` to `end` without the line breaks and
/// carriage returns at its end.
pub open spec fn text_end(bytes: Seq<u8>, start: int, end: int) -> int
    decreases end,
{
    if start < end && 0 < end <= bytes.len() && (bytes[end - 1] == 10 || bytes[end - 1] == 13) {
        text_end(bytes, start, end - 1)
    } else {
        end
    }
}

/// The line that holds `o`, without its line break.
pub open spec fn line_around(bytes: Seq<u8>, o: int) -> Seq<u8> {
    let start = line_start(bytes, o);
    bytes.subrange(start, text_end(bytes, start, next_line(bytes, o)))
}

/// An offset, or the end of the bytes where it lies behind it.
pub open spec fn within(bytes: Seq<u8>, offset: int) -> int {
    if offset <= bytes.len() {
        offset
    } else {
        bytes.len() as int
    }
}

/// Where the lines that start up to `n` start.
pub open spec fn starts_upto(bytes: Seq<u8>, n: int) -> Seq<int>
    decreases n,
{
    if n <= 0 {
        seq![0]
    } else if bytes[n - 1] == 10 {
        starts_upto(bytes, n - 1).push(n)
    } else {
        starts_upto(bytes, n - 1)
    }
}

/// An offset as the index holds it: no more than a `u32` counts.
pub open spec fn packed(o: int) -> int {
    if o <= u32::MAX {
        o
    } else {
        u32::MAX as int
    }
}

/// How many of the first `n` lines start at or before the offset.
pub open spec fn started_upto(starts: Seq<int>, offset: int, n: int) -> int
    decreases n,
{
    if n <= 0 {
        0
    } else {
        started_upto(starts, offset, n - 1) + if packed(starts[n - 1]) <= packed(offset) {
            1int
        } else {
            0int
        }
    }
}

/// The number of the line that holds the offset. Of bytes that fit `u32` it is
/// one more than the number of line breaks before the offset.
pub open spec fn line_number_of(bytes: Seq<u8>, offset: int) -> int {
    let all = starts_upto(bytes, bytes.len() as int);
    started_upto(all, offset, all.len() as int)
}

/// Where the line starts that holds the offset.
pub open spec fn line_begin_of(bytes: Seq<u8>, offset: int) -> int {
    packed(starts_upto(bytes, bytes.len() as int)[line_number_of(bytes, offset) - 1])
}

/// The line that holds the offset, without its line break.
pub open spec fn line_text_of(bytes: Seq<u8>, offset: int) -> Seq<u8> {
    let all = starts_upto(bytes, bytes.len() as int);
    let n = line_number_of(bytes, offset);
    let start = packed(all[n - 1]);
    bytes.subrange(
        start,
        text_end(
            bytes,
            start,
            if n < all.len() {
                packed(all[n])
            } else {
                bytes.len() as int
            },
        ),
    )
}

pub(crate) proof fn counts_a_prefix(starts: Seq<int>, offset: int, k: int, n: int)
    requires
        0 <= k,
        0 <= n <= starts.len(),
        k <= starts.len(),
        forall|i: int| 0 <= i < k ==> packed(#[trigger] starts[i]) <= packed(offset),
        forall|i: int| k <= i < starts.len() ==> packed(#[trigger] starts[i]) > packed(offset),
    ensures
        started_upto(starts, offset, n) == if n <= k {
            n
        } else {
            k
        },
    decreases n,
{
    if n > 0 {
        counts_a_prefix(starts, offset, k, n - 1);
    }
}

pub(crate) proof fn starts_facts(bytes: Seq<u8>, n: int)
    requires
        0 <= n <= bytes.len(),
    ensures
        starts_upto(bytes, n).len() == 1 + breaks_before(bytes, n),
        starts_upto(bytes, n).len() >= 1,
        starts_upto(bytes, n)[0] == 0,
        starts_upto(bytes, n).last() == line_start(bytes, n),
        forall|i: int|
            0 <= i < starts_upto(bytes, n).len() ==> 0 <= #[trigger] starts_upto(bytes, n)[i] <= n,
        forall|i: int, j: int|
            0 <= i < j < starts_upto(bytes, n).len() ==> #[trigger] starts_upto(bytes, n)[i]
                < #[trigger] starts_upto(bytes, n)[j],
    decreases n,
{
    if n > 0 {
        starts_facts(bytes, n - 1);
    }
}

/// The starts up to `o` open the list of all starts; the others lie behind it.
pub(crate) proof fn starts_prefix(bytes: Seq<u8>, o: int, n: int)
    requires
        0 <= o <= n <= bytes.len(),
    ensures
        starts_upto(bytes, o).len() <= starts_upto(bytes, n).len(),
        forall|i: int|
            0 <= i < starts_upto(bytes, o).len() ==> #[trigger] starts_upto(bytes, n)[i]
                == starts_upto(bytes, o)[i],
        forall|i: int|
            starts_upto(bytes, o).len() <= i < starts_upto(bytes, n).len()
                ==> #[trigger] starts_upto(bytes, n)[i] > o,
        starts_upto(bytes, o).len() < starts_upto(bytes, n).len() ==> starts_upto(
            bytes,
            n,
        )[starts_upto(bytes, o).len() as int] == next_line(bytes, o),
        starts_upto(bytes, o).len() == starts_upto(bytes, n).len() ==> forall|k: int|
            o <= k < n ==> bytes[k] != 10,
    decreases n,
{
    if o < n {
        starts_prefix(bytes, o, n - 1);
        starts_facts(bytes, n - 1);
        if bytes[n - 1] == 10 && starts_upto(bytes, o).len() == starts_upto(bytes, n - 1).len() {
            next_line_found(bytes, o, n - 1);
        }
    }
}

proof fn next_line_found(bytes: Seq<u8>, o: int, k: int)
    requires
        0 <= o <= k < bytes.len(),
        bytes[k] == 10,
        forall|j: int| o <= j < k ==> bytes[j] != 10,
    ensures
        next_line(bytes, o) == k + 1,
    decreases k - o,
{
    if o < k {
        next_line_found(bytes, o + 1, k);
    }
}

proof fn no_next_line(bytes: Seq<u8>, o: int)
    requires
        0 <= o <= bytes.len(),
        forall|j: int| o <= j < bytes.len() ==> bytes[j] != 10,
    ensures
        next_line(bytes, o) == bytes.len(),
    decreases bytes.len() - o,
{
    if o < bytes.len() {
        no_next_line(bytes, o + 1);
    }
}

/// Line starts, packed as `u32`: no source file that is scanned is 4 GiB. A
/// longer buffer saturates rather than wraps. Its view is the bytes that it
/// indexes.
pub struct LineIndex {
    /// Byte offset of the first character of each line. Always starts with 0.
    starts: Vec<u32>,
    bytes: Ghost<Seq<u8>>,
}

impl View for LineIndex {
    type V = Seq<u8>;

    closed spec fn view(&self) -> Seq<u8> {
        self.bytes@
    }
}

impl LineIndex {
    #[verifier::type_invariant]
    spec fn wf(&self) -> bool {
        let all = starts_upto(self.bytes@, self.bytes@.len() as int);
        &&& self.starts.len() == all.len()
        &&& forall|i: int| 0 <= i < all.len() ==> #[trigger] self.starts@[i] == packed(all[i])
    }

    /// Indexes the lines of a file.
    pub fn new(bytes: &[u8]) -> (index: LineIndex)
        ensures
            index@ == bytes@,
    {
        let mut starts: Vec<u32> = Vec::new();
        starts.push(0);
        let mut i: usize = 0;
        while i < bytes.len()
            invariant
                i <= bytes.len(),
                starts.len() == starts_upto(bytes@, i as int).len(),
                forall|k: int|
                    0 <= k < starts.len() ==> #[trigger] starts@[k] == packed(
                        starts_upto(bytes@, i as int)[k],
                    ),
            decreases bytes.len() - i,
        {
            let b = bytes[i];
            i = i + 1;
            if b == 10 {
                starts.push(
                    if i <= 0xffff_ffff {
                        i as u32
                    } else {
                        0xffff_ffff
                    },
                );
            }
        }
        LineIndex { starts, bytes: Ghost(bytes@) }
    }

    /// The number of lines that start at or before the offset.
    fn line_of(&self, offset: usize) -> (n: usize)
        ensures
            1 <= n <= self.starts.len(),
            self.starts@[n - 1] <= offset,
            n == line_number_of(self@, offset as int),
            self@.len() <= u32::MAX ==> n == 1 + breaks_before(
                self@,
                within(self@, offset as int),
            ),
    {
        proof {
            use_type_invariant(self);
            starts_facts(self@, self@.len() as int);
        }
        let off: u32 = if offset <= 0xffff_ffff {
            offset as u32
        } else {
            0xffff_ffff
        };
        let ghost all = starts_upto(self@, self@.len() as int);
        let mut lo: usize = 1;
        let mut hi: usize = self.starts.len();
        while lo < hi
            invariant
                self.wf(),
                all == starts_upto(self@, self@.len() as int),
                forall|i: int, j: int| 0 <= i < j < all.len() ==> #[trigger] all[i] < #[trigger] all[j],
                1 <= lo <= hi <= self.starts.len() == all.len(),
                forall|i: int| 0 <= i < lo ==> #[trigger] self.starts@[i] <= off,
                forall|i: int| hi <= i < all.len() ==> #[trigger] self.starts@[i] > off,
            decreases hi - lo,
        {
            let mid: usize = lo + (hi - lo) / 2;
            if self.starts[mid] <= off {
                proof {
                    assert forall|i: int| 0 <= i < mid + 1 implies #[trigger] self.starts@[i]
                        <= off by {
                        assert(self.starts@[mid as int] == packed(all[mid as int]));
                        assert(self.starts@[i] == packed(all[i]));
                        if i < mid {
                            assert(all[i] < all[mid as int]);
                        }
                    }
                }
                lo = mid + 1;
            } else {
                proof {
                    assert forall|i: int| mid <= i < all.len() implies #[trigger] self.starts@[i]
                        > off by {
                        assert(self.starts@[mid as int] == packed(all[mid as int]));
                        assert(self.starts@[i] == packed(all[i]));
                        if mid < i {
                            assert(all[mid as int] < all[i]);
                        }
                    }
                }
                hi = mid;
            }
        }
        proof {
            assert forall|i: int| 0 <= i < lo implies packed(#[trigger] all[i]) <= packed(
                offset as int,
            ) by {
                assert(self.starts@[i] <= off);
            }
            assert forall|i: int| lo <= i < all.len() implies packed(#[trigger] all[i]) > packed(
                offset as int,
            ) by {
                assert(self.starts@[i] > off);
            }
            counts_a_prefix(all, offset as int, lo as int, all.len() as int);
            if self@.len() <= u32::MAX {
                let o = within(self@, offset as int);
                starts_prefix(self@, o, self@.len() as int);
                starts_facts(self@, o);
                let n = starts_upto(self@, o).len();
                if lo < n {
                    assert(self.starts@[lo as int] == packed(all[lo as int]));
                }
                if n < lo {
                    assert(self.starts@[n as int] == packed(all[n as int]));
                }
            }
        }
        lo
    }

    /// One-based line number and zero-based column for a byte offset. An
    /// offset behind the end counts as one in the last line.
    pub fn locate(&self, offset: usize) -> (r: (usize, usize))
        ensures
            r.0 >= 1,
            r.1 <= offset,
            r.0 == line_number_of(self@, offset as int),
            r.1 == offset - line_begin_of(self@, offset as int),
            self@.len() <= u32::MAX ==> {
                let o = within(self@, offset as int);
                &&& r.0 == 1 + breaks_before(self@, o)
                &&& r.1 == offset - line_start(self@, o)
            },
    {
        let line = self.line_of(offset);
        proof {
            use_type_invariant(self);
            if self@.len() <= u32::MAX {
                let o = within(self@, offset as int);
                starts_facts(self@, o);
                starts_facts(self@, self@.len() as int);
                starts_prefix(self@, o, self@.len() as int);
            }
        }
        assert(self.starts@[line - 1] == packed(
            starts_upto(self@, self@.len() as int)[line - 1],
        ));
        (line, offset - self.starts[line - 1] as usize)
    }

    /// The line containing `offset`, without its trailing newline. `bytes` is
    /// the file that was indexed.
    pub fn line_text<'a>(&self, bytes: &'a [u8], offset: usize) -> (line: &'a [u8])
        requires
            bytes@ == self@,
        ensures
            line@ == line_text_of(self@, offset as int),
            self@.len() <= u32::MAX ==> line@ == line_around(
                self@,
                within(self@, offset as int),
            ),
    {
        let n = self.line_of(offset);
        proof {
            use_type_invariant(self);
            starts_facts(self@, self@.len() as int);
        }
        let ghost all = starts_upto(self@, self@.len() as int);
        let start: usize = self.starts[n - 1] as usize;
        let end: usize = if n < self.starts.len() {
            self.starts[n] as usize
        } else {
            bytes.len()
        };
        proof {
            assert(self.starts@[n - 1] == packed(all[n - 1]));
            if n < all.len() {
                assert(self.starts@[n as int] == packed(all[n as int]));
                assert(all[n - 1] < all[n as int]);
            }
            if self@.len() <= u32::MAX {
                let o = within(self@, offset as int);
                starts_facts(self@, o);
                starts_prefix(self@, o, self@.len() as int);
                if n == all.len() {
                    no_next_line(self@, o);
                }
            }
        }
        let ghost full = end as int;
        let mut end: usize = end;
        while end > start && (bytes[end - 1] == 10 || bytes[end - 1] == 13)
            invariant
                start <= end <= bytes.len(),
                text_end(bytes@, start as int, full) == text_end(bytes@, start as int, end as int),
            decreases end,
        {
            end = end - 1;
        }
        vstd::slice::slice_subrange(bytes, start, end)
    }
}

} // verus!
