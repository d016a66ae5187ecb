//! Line numbers.
use vstd::prelude::*;
use vstd::utf8::*;

verus! {

/// How many line feeds stand among the first `n` bytes.
pub open spec fn line_feeds_before(bytes: Seq<u8>, n: int) -> int
    decreases n,
{
    if n <= 0 || n > bytes.len() {
        0
    } else {
        line_feeds_before(bytes, n - 1) + if bytes[n - 1] == 10 {
            1int
        } else {
            0
        }
    }
}

/// Where the lines of a text start, so that an offset can be told as a line.
pub struct LineIndex {
    /// For each line feed, in order, the offset it stands at.
    breaks: Vec<usize>,
    text: Ghost<Seq<u8>>,
}

proof fn line_feeds_grow(bytes: Seq<u8>, m: int, n: int)
    requires
        0 <= m <= n <= bytes.len(),
    ensures
        0 <= line_feeds_before(bytes, m) <= line_feeds_before(bytes, n) <= n,
    decreases n,
{
    if m < n {
        line_feeds_grow(bytes, m, n - 1);
    } else if n > 0 {
        line_feeds_grow(bytes, n - 1, n - 1);
    }
}

impl LineIndex {
    /// The bytes of the text that the index is of.
    pub closed spec fn bytes(&self) -> Seq<u8> {
        self.text@
    }

    /// The k-th break is a line feed with exactly `k` line feeds before it, and there are no
    /// others.
    #[verifier::type_invariant]
    spec fn breaks_are_the_line_feeds(&self) -> bool {
        let bytes = self.text@;
        &&& self.breaks@.len() == line_feeds_before(bytes, bytes.len() as int)
        &&& forall|k: int|
            0 <= k < self.breaks@.len() ==> (#[trigger] self.breaks@[k]) < bytes.len()
                && bytes[self.breaks@[k] as int] == 10 && line_feeds_before(
                bytes,
                self.breaks@[k] as int,
            ) == k
    }

    /// Finds the lines of a text.
    pub fn new(text: &str) -> (r: LineIndex)
        ensures
            r.bytes() == encode_utf8(text@),
    {
        let bytes = text.as_bytes();
        let len: usize = bytes.len();
        let mut breaks: Vec<usize> = Vec::new();
        let mut i: usize = 0;
        while i < len
            invariant
                i <= len,
                len == bytes@.len(),
                breaks@.len() == line_feeds_before(bytes@, i as int),
                forall|k: int|
                    0 <= k < breaks@.len() ==> (#[trigger] breaks@[k]) < i && bytes@[breaks@[k] as int]
                        == 10 && line_feeds_before(bytes@, breaks@[k] as int) == k,
            decreases len - i,
        {
            if bytes[i] == 10 {
                breaks.push(i);
            }
            i = i + 1;
        }
        LineIndex { breaks, text: Ghost(bytes@) }
    }

    /// The line an offset stands on, counted from zero.
    pub fn line_of(&self, offset: usize) -> (line: usize)
        requires
            offset <= self.bytes().len(),
        ensures
            line == line_feeds_before(self.bytes(), offset as int),
    {
        let ghost bytes = self.bytes();
        let mut low: usize = 0;
        let mut high: usize = self.breaks.len();
        proof {
            use_type_invariant(self);
            line_feeds_grow(bytes, offset as int, bytes.len() as int);
        }
        // The answer lies between: the breaks before `low` stand before the offset, those from
        // `high` on do not.
        while low < high
            invariant
                bytes == self.bytes(),
                self.breaks_are_the_line_feeds(),
                offset <= bytes.len(),
                low <= high <= self.breaks@.len(),
                low <= line_feeds_before(bytes, offset as int) <= high,
            decreases high - low,
        {
            let middle: usize = low + (high - low) / 2;
            let at: usize = self.breaks[middle];
            assert(line_feeds_before(bytes, at + 1) == middle + 1);
            if at < offset {
                proof {
                    line_feeds_grow(bytes, at + 1, offset as int);
                }
                low = middle + 1;
            } else {
                proof {
                    line_feeds_grow(bytes, offset as int, at as int);
                }
                high = middle;
            }
        }
        low
    }
}

} // verus!
