//! Line, word and byte counting as a streaming fold: each buffer is
//! summarised by a [`Flux`] (its counts plus the whitespace class of its
//! first and last byte), and the summaries of adjacent buffers combine so
//! that a word split across a buffer boundary is counted once.

use vstd::prelude::*;
use vstd::string::StringExecFns;

use crate::util::{dec_digits, opt_as_empty_str, NEWLINE};

verus! {

/// The rendering of an optional count: its decimal digits, or nothing.
pub open spec fn opt_count_chars(o: Option<usize>) -> Seq<char> {
    match o {
        Some(n) => dec_digits(n as nat),
        None => Seq::empty(),
    }
}

/// The class of a byte.
#[derive(Copy, Clone, Eq, PartialEq, Structural, Debug, Hash)]
pub enum CharType {
    /// The byte is an ASCII whitespace separator.
    IsSpace,
    /// The byte is not an ASCII whitespace separator.
    NotSpace,
}

/// ASCII whitespace: space, horizontal tab, line feed, form feed and
/// carriage return. A line feed separates words like any other whitespace.
pub open spec fn is_ascii_space(b: u8) -> bool {
    b == 32 || b == 9 || b == 10 || b == 12 || b == 13
}

/// The class of the byte `b`.
pub open spec fn char_type_of(b: u8) -> CharType {
    if is_ascii_space(b) {
        CharType::IsSpace
    } else {
        CharType::NotSpace
    }
}

impl CharType {
    /// Classifies one byte.
    pub fn from_byte(b: u8) -> (r: CharType)
        ensures
            r == char_type_of(b),
    {
        if b == 32 || b == 9 || b == 10 || b == 12 || b == 13 {
            CharType::IsSpace
        } else {
            CharType::NotSpace
        }
    }
}

/// Words seen so far in a left-to-right scan: the class of the last byte
/// seen, and how many words have started.
#[derive(Copy, Clone, Eq, PartialEq, Structural, Debug, Hash)]
pub struct WordCount {
    pub current: CharType,
    pub count: usize,
}

/// Folding one byte class into a scan state: a word starts where a
/// non-space byte follows a space state.
pub open spec fn word_count_step(a: WordCount, b: WordCount) -> WordCount {
    WordCount {
        current: b.current,
        count: if b.current is NotSpace && a.current is IsSpace {
            (a.count + 1) as usize
        } else {
            a.count
        },
    }
}

impl WordCount {
    /// The state contributed by one byte on its own.
    pub fn from_byte(b: u8) -> (r: WordCount)
        ensures
            r == (WordCount { current: char_type_of(b), count: 0 }),
    {
        WordCount { current: CharType::from_byte(b), count: 0 }
    }

    /// The state before any byte: as if following whitespace.
    pub fn empty() -> (r: WordCount)
        ensures
            r == (WordCount { current: CharType::IsSpace, count: 0 }),
    {
        WordCount { current: CharType::IsSpace, count: 0 }
    }

    /// Folds the next byte's state into the scan.
    pub fn combine(self, other: WordCount) -> (r: WordCount)
        requires
            (other.current is NotSpace && self.current is IsSpace) ==> self.count < usize::MAX,
        ensures
            r == word_count_step(self, other),
    {
        let new_count = match other.current {
            CharType::IsSpace => self.count,
            CharType::NotSpace => match self.current {
                CharType::IsSpace => self.count + 1,
                CharType::NotSpace => self.count,
            },
        };
        WordCount { current: other.current, count: new_count }
    }
}

/// Words in `s` when the byte before `s` had class `prev`.
pub open spec fn word_count_from(s: Seq<u8>, prev: CharType) -> nat
    decreases s.len(),
{
    if s.len() == 0 {
        0
    } else {
        (if char_type_of(s[0]) is NotSpace && prev is IsSpace {
            1 as nat
        } else {
            0
        }) + word_count_from(s.subrange(1, s.len() as int), char_type_of(s[0]))
    }
}

/// Words in `s`: maximal runs of non-whitespace bytes.
pub open spec fn word_count_of(s: Seq<u8>) -> nat {
    word_count_from(s, CharType::IsSpace)
}

/// A scan never counts more words than it reads bytes.
pub proof fn lemma_word_count_le(s: Seq<u8>, prev: CharType)
    ensures
        word_count_from(s, prev) <= s.len(),
    decreases s.len(),
{
    if s.len() > 0 {
        lemma_word_count_le(s.subrange(1, s.len() as int), char_type_of(s[0]));
    }
}

/// Counts the words in a buffer.
pub fn word_count(b_slice: &[u8]) -> (r: usize)
    ensures
        r == word_count_of(b_slice@),
{
    let ghost whole = b_slice@;
    let mut acc = WordCount::empty();
    let mut i: usize = 0;
    proof {
        assert(whole.subrange(0, whole.len() as int) =~= whole);
        lemma_word_count_le(whole, CharType::IsSpace);
    }
    while i < b_slice.len()
        invariant
            i <= b_slice.len(),
            whole == b_slice@,
            acc.count <= i,
            word_count_of(whole) == acc.count + word_count_from(
                whole.subrange(i as int, whole.len() as int),
                acc.current,
            ),
        decreases b_slice.len() - i,
    {
        let ghost tail = whole.subrange(i as int, whole.len() as int);
        proof {
            assert(tail[0] == whole[i as int]);
            assert(tail.subrange(1, tail.len() as int) =~= whole.subrange(
                i as int + 1,
                whole.len() as int,
            ));
            lemma_word_count_le(tail.subrange(1, tail.len() as int), char_type_of(tail[0]));
        }
        acc = acc.combine(WordCount::from_byte(b_slice[i]));
        i = i + 1;
    }
    proof {
        assert(whole.subrange(i as int, whole.len() as int) =~= Seq::<u8>::empty());
    }
    acc.count
}

/// Line feeds in `s`.
pub open spec fn newline_count(s: Seq<u8>) -> nat
    decreases s.len(),
{
    if s.len() == 0 {
        0
    } else {
        (if s[0] == NEWLINE {
            1 as nat
        } else {
            0
        }) + newline_count(s.subrange(1, s.len() as int))
    }
}

/// There are never more line feeds than bytes.
pub proof fn lemma_newline_count_le(s: Seq<u8>)
    ensures
        newline_count(s) <= s.len(),
    decreases s.len(),
{
    if s.len() > 0 {
        lemma_newline_count_le(s.subrange(1, s.len() as int));
    }
}

/// Counts the line feeds in a buffer.
pub fn num_newlines(b_slice: &[u8]) -> (r: usize)
    ensures
        r == newline_count(b_slice@),
{
    let ghost whole = b_slice@;
    let mut acc: usize = 0;
    let mut i: usize = 0;
    proof {
        assert(whole.subrange(0, whole.len() as int) =~= whole);
        lemma_newline_count_le(whole);
    }
    while i < b_slice.len()
        invariant
            i <= b_slice.len(),
            whole == b_slice@,
            acc <= i,
            newline_count(whole) == acc + newline_count(
                whole.subrange(i as int, whole.len() as int),
            ),
        decreases b_slice.len() - i,
    {
        let ghost tail = whole.subrange(i as int, whole.len() as int);
        proof {
            assert(tail[0] == whole[i as int]);
            assert(tail.subrange(1, tail.len() as int) =~= whole.subrange(
                i as int + 1,
                whole.len() as int,
            ));
            lemma_newline_count_le(tail.subrange(1, tail.len() as int));
        }
        if crate::util::is_newline(b_slice[i]) {
            acc = acc + 1;
        }
        i = i + 1;
    }
    proof {
        assert(whole.subrange(i as int, whole.len() as int) =~= Seq::<u8>::empty());
    }
    acc
}

/// The result of a count: each field is present when that count was asked
/// for.
#[derive(Copy, Clone, Eq, PartialEq, Debug, Hash)]
pub struct Counts {
    pub bytes: Option<usize>,
    pub words: Option<usize>,
    pub lines: Option<usize>,
}

impl Counts {
    /// All three counts.
    pub fn new(bytes: usize, words: usize, lines: usize) -> (r: Counts)
        ensures
            r == (Counts { bytes: Some(bytes), words: Some(words), lines: Some(lines) }),
    {
        Counts { bytes: Some(bytes), words: Some(words), lines: Some(lines) }
    }

    /// All three counts, at zero.
    pub fn empty() -> (r: Counts)
        ensures
            r == (Counts { bytes: Some(0usize), words: Some(0usize), lines: Some(0usize) }),
    {
        Counts::new(0, 0, 0)
    }

    /// No count asked for yet.
    pub fn null() -> (r: Counts)
        ensures
            r == (Counts { bytes: None::<usize>, words: None::<usize>, lines: None::<usize> }),
    {
        Counts { bytes: None, words: None, lines: None }
    }

    /// The same counts with the byte count set.
    pub fn bytes(self, bytes: usize) -> (r: Counts)
        ensures
            r == (Counts { bytes: Some(bytes), ..self }),
    {
        Counts { bytes: Some(bytes), ..self }
    }

    /// The same counts with the word count set.
    pub fn words(self, words: usize) -> (r: Counts)
        ensures
            r == (Counts { words: Some(words), ..self }),
    {
        Counts { words: Some(words), ..self }
    }

    /// The same counts with the line count set.
    pub fn lines(self, lines: usize) -> (r: Counts)
        ensures
            r == (Counts { lines: Some(lines), ..self }),
    {
        Counts { lines: Some(lines), ..self }
    }

    /// Renders the counts as lines, words and bytes separated by single
    /// spaces; a count not asked for renders as nothing.
    pub fn format(&self) -> (s: String)
        ensures
            s@ == opt_count_chars(self.lines) + seq![' '] + opt_count_chars(self.words) + seq![' ']
                + opt_count_chars(self.bytes),
    {
        let mut s = opt_as_empty_str(self.lines);
        let blank = " ";
        proof {
            reveal_strlit(" ");
            assert(blank@ =~= seq![' ']);
        }
        let w_str = opt_as_empty_str(self.words);
        let b_str = opt_as_empty_str(self.bytes);
        s.append(blank);
        s.append(w_str.as_str());
        s.append(blank);
        s.append(b_str.as_str());
        s
    }
}

/// Summary of one buffer: its counts and the whitespace class of its
/// boundary bytes, which decides whether words merge when buffers join.
#[derive(Copy, Clone, Eq, PartialEq, Structural, Debug, Hash)]
pub struct Flux {
    /// The class of the buffer's first byte.
    pub left_char_type: CharType,
    /// Bytes in the buffer.
    pub bytes: usize,
    /// Words in the buffer.
    pub words: usize,
    /// Line feeds in the buffer.
    pub lines: usize,
    /// The class of the buffer's last byte.
    pub right_char_type: CharType,
}

/// Joining two adjacent summaries: counts add, except that a word running
/// across the boundary (non-space on both sides) was counted on both sides
/// and is counted once.
pub open spec fn flux_span(a: Flux, b: Flux) -> Flux {
    Flux {
        left_char_type: a.left_char_type,
        bytes: (a.bytes + b.bytes) as usize,
        words: if a.right_char_type is NotSpace && b.left_char_type is NotSpace {
            (a.words + b.words - 1) as usize
        } else {
            (a.words + b.words) as usize
        },
        lines: (a.lines + b.lines) as usize,
        right_char_type: b.right_char_type,
    }
}

impl Flux {
    /// A summary from its parts.
    pub fn new(
        left_char_type: CharType,
        bytes: usize,
        words: usize,
        lines: usize,
        right_char_type: CharType,
    ) -> (r: Flux)
        ensures
            r == (Flux { left_char_type, bytes, words, lines, right_char_type }),
    {
        Flux { left_char_type, bytes, words, lines, right_char_type }
    }

    /// The summary of this buffer followed by `rhs`.
    pub fn span(self, rhs: Flux) -> (r: Flux)
        requires
            self.bytes + rhs.bytes <= usize::MAX,
            self.words + rhs.words <= usize::MAX,
            self.lines + rhs.lines <= usize::MAX,
            (self.right_char_type is NotSpace && rhs.left_char_type is NotSpace) ==> self.words
                + rhs.words >= 1,
        ensures
            r == flux_span(self, rhs),
    {
        let words = if matches!(
            (self.right_char_type, rhs.left_char_type),
            (CharType::NotSpace, CharType::NotSpace)
        ) {
            self.words + rhs.words - 1
        } else {
            self.words + rhs.words
        };
        Flux::new(
            self.left_char_type,
            self.bytes + rhs.bytes,
            words,
            self.lines + rhs.lines,
            rhs.right_char_type,
        )
    }
}

/// The summary of a possibly empty stretch of input: empty input has no
/// boundary bytes, so it gets no [`Flux`].
#[derive(Copy, Clone, Eq, PartialEq, Structural, Debug)]
pub enum FluxMay {
    FluxSome(Flux),
    FluxEmpty,
}

/// The summary of the byte sequence `s`.
pub open spec fn flux_of(s: Seq<u8>) -> FluxMay
    recommends
        s.len() <= usize::MAX,
{
    if s.len() == 0 {
        FluxMay::FluxEmpty
    } else {
        FluxMay::FluxSome(
            Flux {
                left_char_type: char_type_of(s[0]),
                bytes: s.len() as usize,
                words: word_count_of(s) as usize,
                lines: newline_count(s) as usize,
                right_char_type: char_type_of(s[s.len() - 1]),
            },
        )
    }
}

/// Joining two adjacent summaries; an empty side changes nothing.
pub open spec fn flux_may_combine(a: FluxMay, b: FluxMay) -> FluxMay {
    match b {
        FluxMay::FluxEmpty => a,
        FluxMay::FluxSome(bf) => match a {
            FluxMay::FluxEmpty => b,
            FluxMay::FluxSome(af) => FluxMay::FluxSome(flux_span(af, bf)),
        },
    }
}

/// When two summaries can be joined without the counts leaving `usize`.
pub open spec fn flux_may_combinable(a: FluxMay, b: FluxMay) -> bool {
    match (a, b) {
        (FluxMay::FluxSome(af), FluxMay::FluxSome(bf)) => {
            &&& af.bytes + bf.bytes <= usize::MAX
            &&& af.words + bf.words <= usize::MAX
            &&& af.lines + bf.lines <= usize::MAX
            &&& ((af.right_char_type is NotSpace && bf.left_char_type is NotSpace) ==> af.words
                + bf.words >= 1)
        },
        _ => true,
    }
}

impl FluxMay {
    /// A summary from its parts.
    pub fn new(
        left_char_type: CharType,
        bytes: usize,
        words: usize,
        lines: usize,
        right_char_type: CharType,
    ) -> (r: FluxMay)
        ensures
            r == FluxMay::FluxSome(Flux { left_char_type, bytes, words, lines, right_char_type }),
    {
        FluxMay::FluxSome(Flux::new(left_char_type, bytes, words, lines, right_char_type))
    }

    /// The summary of no input at all.
    pub fn empty() -> (r: FluxMay)
        ensures
            r == FluxMay::FluxEmpty,
    {
        FluxMay::FluxEmpty
    }

    /// The counts this summary stands for; no input counts as zero.
    pub fn counts(&self) -> (r: Counts)
        ensures
            r == (match *self {
                FluxMay::FluxSome(f) => Counts {
                    bytes: Some(f.bytes),
                    words: Some(f.words),
                    lines: Some(f.lines),
                },
                FluxMay::FluxEmpty => Counts {
                    bytes: Some(0usize),
                    words: Some(0usize),
                    lines: Some(0usize),
                },
            }),
    {
        match self {
            FluxMay::FluxSome(flux) => Counts::new(flux.bytes, flux.words, flux.lines),
            FluxMay::FluxEmpty => Counts::empty(),
        }
    }

    /// The summary of this stretch of input followed by `other`.
    pub fn combine(self, other: FluxMay) -> (r: FluxMay)
        requires
            flux_may_combinable(self, other),
        ensures
            r == flux_may_combine(self, other),
    {
        match other {
            FluxMay::FluxEmpty => self,
            FluxMay::FluxSome(other_flux) => match self {
                FluxMay::FluxEmpty => other,
                FluxMay::FluxSome(self_flux) => FluxMay::FluxSome(self_flux.span(other_flux)),
            },
        }
    }

    /// Summarises one buffer.
    pub fn from_bytes(buf: &[u8]) -> (r: FluxMay)
        ensures
            r == flux_of(buf@),
    {
        if buf.len() == 0 {
            FluxMay::FluxEmpty
        } else {
            proof {
                lemma_word_count_le(buf@, CharType::IsSpace);
                lemma_newline_count_le(buf@);
            }
            let lines = num_newlines(buf);
            let words = word_count(buf);
            let first_char = CharType::from_byte(buf[0]);
            let last_char = CharType::from_byte(buf[buf.len() - 1]);
            FluxMay::new(first_char, buf.len(), words, lines, last_char)
        }
    }
}

/// The empty summary is the identity of combining.
pub proof fn lemma_flux_may_combine_identity(a: FluxMay)
    ensures
        flux_may_combine(FluxMay::FluxEmpty, a) == a,
        flux_may_combine(a, FluxMay::FluxEmpty) == a,
{
}

/// Combining summaries is associative wherever the counts stay in range,
/// so buffer summaries may be folded in any grouping.
pub proof fn lemma_flux_may_combine_assoc(a: FluxMay, b: FluxMay, c: FluxMay)
    requires
        flux_may_combinable(a, b),
        flux_may_combinable(flux_may_combine(a, b), c),
        flux_may_combinable(b, c),
        flux_may_combinable(a, flux_may_combine(b, c)),
    ensures
        flux_may_combine(flux_may_combine(a, b), c) == flux_may_combine(a, flux_may_combine(b, c)),
{
}

/// The class of the byte just before the end of `s`, for a scan that
/// entered `s` in state `prev`: `prev` itself when `s` is empty.
pub open spec fn last_class(s: Seq<u8>, prev: CharType) -> CharType {
    if s.len() == 0 {
        prev
    } else {
        char_type_of(s[s.len() - 1])
    }
}

/// The entry state only decides whether a word starts at the very first
/// byte.
proof fn lemma_word_count_entry_state(s: Seq<u8>)
    requires
        s.len() > 0,
    ensures
        word_count_from(s, CharType::IsSpace) == word_count_from(s, CharType::NotSpace) + (
        if char_type_of(s[0]) is NotSpace {
            1int
        } else {
            0
        }),
{
}

/// Scanning a concatenation scans the first part, then the second from the
/// state the first part ends in.
proof fn lemma_word_count_append(a: Seq<u8>, b: Seq<u8>, prev: CharType)
    ensures
        word_count_from(a + b, prev) == word_count_from(a, prev) + word_count_from(
            b,
            last_class(a, prev),
        ),
    decreases a.len(),
{
    if a.len() == 0 {
        assert(a + b =~= b);
    } else {
        let ab = a + b;
        assert(ab[0] == a[0]);
        assert(ab.subrange(1, ab.len() as int) =~= a.subrange(1, a.len() as int) + b);
        lemma_word_count_append(a.subrange(1, a.len() as int), b, char_type_of(a[0]));
        assert(last_class(a.subrange(1, a.len() as int), char_type_of(a[0])) == last_class(
            a,
            prev,
        ));
    }
}

/// Line feeds in a concatenation add up.
proof fn lemma_newline_count_append(a: Seq<u8>, b: Seq<u8>)
    ensures
        newline_count(a + b) == newline_count(a) + newline_count(b),
    decreases a.len(),
{
    if a.len() == 0 {
        assert(a + b =~= b);
    } else {
        let ab = a + b;
        assert(ab[0] == a[0]);
        assert(ab.subrange(1, ab.len() as int) =~= a.subrange(1, a.len() as int) + b);
        lemma_newline_count_append(a.subrange(1, a.len() as int), b);
    }
}

/// Summarising distributes over concatenation: the summary of two adjacent
/// stretches of input is the combination of their summaries. This is what
/// lets a caller fold buffer summaries together and get the counts of the
/// whole input.
pub proof fn lemma_flux_of_append(a: Seq<u8>, b: Seq<u8>)
    requires
        a.len() + b.len() <= usize::MAX,
    ensures
        flux_of(a + b) == flux_may_combine(flux_of(a), flux_of(b)),
{
    if a.len() == 0 {
        assert(a + b =~= b);
    } else if b.len() == 0 {
        assert(a + b =~= a);
    } else {
        let ab = a + b;
        assert(ab[0] == a[0]);
        assert(ab[ab.len() - 1] == b[b.len() - 1]);
        lemma_word_count_le(a, CharType::IsSpace);
        lemma_word_count_le(b, CharType::IsSpace);
        lemma_newline_count_le(a);
        lemma_newline_count_le(b);
        lemma_newline_count_append(a, b);
        lemma_word_count_append(a, b, CharType::IsSpace);
        lemma_word_count_entry_state(b);
    }
}

} // verus!
