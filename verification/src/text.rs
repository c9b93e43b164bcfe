//! The text as the session sees it: characters, and the byte position at which each begins.

use vstd::prelude::*;
use vstd::std_specs::iter::IteratorSpec;
use vstd::utf8::{
    char_is_scalar, encode_scalar, encode_utf8, encode_utf8_first_scalar, encode_utf8_valid_utf8,
    is_char_boundary, length_of_first_scalar, pop_first_scalar,
};

verus! {

/// Number of bytes that `c` takes in UTF-8.
pub open spec fn char_width(c: char) -> nat {
    if (c as u32) < 0x80 {
        1
    } else if (c as u32) < 0x800 {
        2
    } else if (c as u32) < 0x10000 {
        3
    } else {
        4
    }
}

/// Number of bytes that the characters of `s` take together.
pub open spec fn byte_len(s: Seq<char>) -> nat
    decreases s.len(),
{
    if s.len() == 0 {
        0
    } else {
        byte_len(s.drop_last()) + char_width(s.last())
    }
}

/// Byte position at which character `i` of `s` begins; for `i == s.len()`, the end of the text.
pub open spec fn offset_of(s: Seq<char>, i: int) -> nat
    recommends
        0 <= i <= s.len(),
{
    byte_len(s.take(i))
}

/// Whether a character begins at byte position `p` of `s`, or `s` ends there.
pub open spec fn on_boundary(s: Seq<char>, p: int) -> bool {
    exists|i: int| 0 <= i <= s.len() && offset_of(s, i) == p
}

/// The index of the character that begins at byte position `p`; `s.len()` for the end.
pub open spec fn index_at(s: Seq<char>, p: int) -> int
    recommends
        on_boundary(s, p),
{
    choose|i: int| 0 <= i <= s.len() && offset_of(s, i) == p
}

/// Whether `c` is white space: the characters that Unicode gives the property White_Space.
pub open spec fn is_space(c: char) -> bool {
    let v = c as u32;
    ||| 0x09 <= v <= 0x0d
    ||| v == 0x20
    ||| v == 0x85
    ||| v == 0xa0
    ||| v == 0x1680
    ||| 0x2000 <= v <= 0x200a
    ||| v == 0x2028
    ||| v == 0x2029
    ||| v == 0x202f
    ||| v == 0x205f
    ||| v == 0x3000
}

/// Each character begins where the one before it ends.
pub proof fn lemma_offset_step(s: Seq<char>, i: int)
    requires
        0 <= i < s.len(),
    ensures
        offset_of(s, i + 1) == offset_of(s, i) + char_width(s[i]),
        offset_of(s, 0) == 0,
{
    assert(s.take(i + 1).drop_last() =~= s.take(i));
    assert(s.take(0) =~= Seq::<char>::empty());
}

/// Later characters begin at later positions.
pub proof fn lemma_offset_increases(s: Seq<char>, i: int, j: int)
    requires
        0 <= i <= j <= s.len(),
    ensures
        offset_of(s, i) <= offset_of(s, j),
        i < j ==> offset_of(s, i) < offset_of(s, j),
        offset_of(s, j) - offset_of(s, i) <= 4 * (j - i),
        offset_of(s, j) - offset_of(s, i) >= j - i,
    decreases j - i,
{
    if i < j {
        lemma_offset_increases(s, i, j - 1);
        lemma_offset_step(s, j - 1);
    }
}

/// The text ends at its length in bytes.
pub proof fn lemma_offset_end(s: Seq<char>)
    ensures
        offset_of(s, s.len() as int) == byte_len(s),
        offset_of(s, 0) == 0,
{
    assert(s.take(s.len() as int) =~= s);
    assert(s.take(0) =~= Seq::<char>::empty());
}

/// At most one character begins at a byte position.
pub proof fn lemma_index_at(s: Seq<char>, i: int)
    requires
        0 <= i <= s.len(),
    ensures
        on_boundary(s, offset_of(s, i) as int),
        index_at(s, offset_of(s, i) as int) == i,
{
    let p = offset_of(s, i) as int;
    let k = index_at(s, p);
    assert(0 <= k <= s.len() && offset_of(s, k) == p);
    if k < i {
        lemma_offset_increases(s, k, i);
    } else if i < k {
        lemma_offset_increases(s, i, k);
    }
}

proof fn lemma_byte_len_first(s: Seq<char>)
    requires
        s.len() > 0,
    ensures
        byte_len(s) == char_width(s[0]) + byte_len(s.drop_first()),
    decreases s.len(),
{
    if s.len() == 1 {
        assert(s.drop_last() =~= Seq::<char>::empty());
        assert(s.drop_first() =~= Seq::<char>::empty());
    } else {
        lemma_byte_len_first(s.drop_last());
        assert(s.drop_first().drop_last() =~= s.drop_last().drop_first());
    }
}

/// The bytes counted here are those of the UTF-8 encoding.
pub proof fn lemma_byte_len_is_encoded_len(s: Seq<char>)
    ensures
        encode_utf8(s).len() == byte_len(s),
    decreases s.len(),
{
    if s.len() > 0 {
        lemma_byte_len_first(s);
        lemma_byte_len_is_encoded_len(s.drop_first());
        char_is_scalar(s[0]);
        assert(encode_scalar(s[0] as u32).len() == char_width(s[0]));
    }
}

proof fn lemma_offset_after_first(s: Seq<char>, i: int)
    requires
        1 <= i <= s.len(),
    ensures
        offset_of(s, i) == char_width(s[0]) + offset_of(s.drop_first(), i - 1),
{
    lemma_byte_len_first(s.take(i));
    assert(s.take(i).drop_first() =~= s.drop_first().take(i - 1));
}

/// The positions at which characters begin are the character boundaries of the UTF-8
/// encoding.
pub proof fn lemma_boundary_is_char_boundary(s: Seq<char>, p: int)
    ensures
        on_boundary(s, p) <==> is_char_boundary(encode_utf8(s), p),
    decreases s.len(),
{
    let bytes = encode_utf8(s);
    encode_utf8_valid_utf8(s);
    lemma_byte_len_is_encoded_len(s);
    lemma_offset_end(s);
    if p == 0 {
        assert(offset_of(s, 0) == p);
    } else if p < 0 || bytes.len() < p {
        assert forall|i: int| 0 <= i <= s.len() implies offset_of(s, i) != p by {
            lemma_offset_increases(s, i, s.len() as int);
        }
    } else {
        assert(s.len() > 0);
        let rest = s.drop_first();
        let w = char_width(s[0]) as int;
        encode_utf8_first_scalar(s);
        char_is_scalar(s[0]);
        assert(encode_scalar(s[0] as u32).len() == w);
        assert(length_of_first_scalar(bytes) == w);
        assert(pop_first_scalar(bytes) =~= encode_utf8(rest));
        lemma_boundary_is_char_boundary(rest, p - w);
        assert(is_char_boundary(bytes, p) == is_char_boundary(encode_utf8(rest), p - w));
        if on_boundary(s, p) {
            let i = choose|i: int| 0 <= i <= s.len() && offset_of(s, i) == p;
            lemma_offset_after_first(s, i);
            assert(offset_of(rest, i - 1) == p - w);
        }
        if on_boundary(rest, p - w) {
            let j = choose|j: int| 0 <= j <= rest.len() && offset_of(rest, j) == p - w;
            lemma_offset_after_first(s, j + 1);
            assert(offset_of(s, j + 1) == p);
        }
    }
}

/// Computes the UTF-8 width of a character.
pub fn width_of(c: char) -> (w: usize)
    ensures
        w == char_width(c),
        1 <= w <= 4,
{
    let v: u32 = c as u32;
    if v < 0x80 {
        1
    } else if v < 0x800 {
        2
    } else if v < 0x10000 {
        3
    } else {
        4
    }
}

/// Tells whether a character is white space.
pub fn space(c: char) -> (b: bool)
    ensures
        b == is_space(c),
{
    let v: u32 = c as u32;
    (0x09 <= v && v <= 0x0d) || v == 0x20 || v == 0x85 || v == 0xa0 || v == 0x1680 || (0x2000 <= v
        && v <= 0x200a) || v == 0x2028 || v == 0x2029 || v == 0x202f || v == 0x205f || v == 0x3000
}

/// Reads the characters of a string into a vector.
pub fn chars_of(text: &str) -> (v: Vec<char>)
    ensures
        v@ == text@,
{
    let mut v: Vec<char> = Vec::new();
    let mut it = text.chars();
    loop
        invariant
            v@ + it.remaining() == text@,
            it.decrease() is Some,
        ensures
            v@ == text@,
        decreases it.decrease()->0,
    {
        match it.next() {
            Some(c) => {
                v.push(c);
            },
            None => {
                break ;
            },
        }
    }
    v
}

/// A text read into characters, with the byte position of each.
pub struct Decoded {
    chars: Vec<char>,
    starts: Vec<usize>,
}

impl View for Decoded {
    type V = Seq<char>;

    closed spec fn view(&self) -> Seq<char> {
        self.chars@
    }
}

impl Decoded {
    /// The positions held are those of the characters held.
    #[verifier::type_invariant]
    spec fn wf(&self) -> bool {
        &&& self.starts@.len() == self.chars@.len() + 1
        &&& forall|i: int| 0 <= i <= self.chars@.len() ==>
            #[trigger] self.starts@[i] == offset_of(self.chars@, i)
    }

    /// Reads `text`.
    pub fn decode(text: &str) -> (d: Decoded)
        ensures
            d@ == text@,
    {
        let total: usize = text.as_bytes().len();
        let chars = chars_of(text);
        let mut starts: Vec<usize> = Vec::new();
        let mut pos: usize = 0;
        let mut i: usize = 0;
        proof {
            lemma_byte_len_is_encoded_len(text@);
            lemma_offset_end(chars@);
        }
        while i < chars.len()
            invariant
                chars@ == text@,
                total == byte_len(chars@),
                i <= chars@.len(),
                pos == offset_of(chars@, i as int),
                starts@.len() == i,
                forall|k: int| 0 <= k < i ==> #[trigger] starts@[k] == offset_of(chars@, k),
            decreases chars@.len() - i,
        {
            starts.push(pos);
            proof {
                lemma_offset_step(chars@, i as int);
                lemma_offset_increases(chars@, i as int + 1, chars@.len() as int);
                lemma_offset_end(chars@);
            }
            pos = pos + width_of(chars[i]);
            i += 1;
        }
        starts.push(pos);
        Decoded { chars, starts }
    }

    /// Number of characters.
    pub fn len(&self) -> (n: usize)
        ensures
            n == self@.len(),
    {
        self.chars.len()
    }

    /// Character `i`.
    pub fn char_at(&self, i: usize) -> (c: char)
        requires
            i < self@.len(),
        ensures
            c == self@[i as int],
    {
        self.chars[i]
    }

    /// Byte position at which character `i` begins; with `i` the number of characters, the
    /// length of the text in bytes.
    pub fn start_of(&self, i: usize) -> (p: usize)
        requires
            i <= self@.len(),
        ensures
            p == offset_of(self@, i as int),
    {
        proof {
            use_type_invariant(self);
        }
        self.starts[i]
    }

    /// The index of the character that begins at byte position `p`, if one does; the number
    /// of characters where the text ends at `p`.
    pub fn find(&self, p: usize) -> (r: Option<usize>)
        ensures
            r is Some <==> on_boundary(self@, p as int),
            r matches Some(i) ==> i <= self@.len() && offset_of(self@, i as int) == p && i
                == index_at(self@, p as int),
    {
        let n = self.chars.len();
        let mut lo: usize = 0;
        let mut hi: usize = n;
        proof {
            use_type_invariant(self);
            lemma_offset_end(self@);
        }
        if self.starts[n] < p {
            proof {
                assert forall|k: int| 0 <= k <= self@.len() implies offset_of(self@, k) != p by {
                    lemma_offset_increases(self@, k, n as int);
                }
            }
            return None;
        }
        while lo < hi
            invariant
                self.wf(),
                n == self@.len(),
                lo <= hi <= n,
                p <= offset_of(self@, hi as int),
                forall|k: int| 0 <= k < lo ==> offset_of(self@, k) < p,
            decreases hi - lo,
        {
            let mid = lo + (hi - lo) / 2;
            if self.starts[mid] < p {
                proof {
                    assert forall|k: int| 0 <= k < mid + 1 implies offset_of(self@, k) < p by {
                        lemma_offset_increases(self@, k, mid as int);
                    }
                }
                lo = mid + 1;
            } else {
                hi = mid;
            }
        }
        if self.starts[lo] == p {
            proof {
                lemma_index_at(self@, lo as int);
            }
            Some(lo)
        } else {
            proof {
                assert forall|k: int| 0 <= k <= self@.len() implies offset_of(self@, k) != p by {
                    if k > lo {
                        lemma_offset_increases(self@, lo as int, k);
                    }
                }
            }
            None
        }
    }
}

} // verus!
