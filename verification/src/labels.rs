//! Labels: one or two lower-case letters for each match, no label a prefix of another.

use vstd::prelude::*;

verus! {

/// Size of the label alphabet, `a` to `z`.
pub const LETTERS: usize = 26;

/// The letter with index `i`, counting from `a`.
pub open spec fn letter_at(i: int) -> char
    recommends
        0 <= i < 26,
{
    ('a' as int + i) as char
}

/// Whether `c` belongs to the label alphabet.
pub open spec fn is_letter(c: char) -> bool {
    'a' <= c <= 'z'
}

/// What `char::is_alphabetic` of std gives for `c`: whether Unicode gives the character the
/// property Alphabetic.
pub uninterp spec fn unicode_alphabetic(c: char) -> bool;

/// Whether `c` is an alphabetic character: among the ASCII characters the letters `a` to `z`
/// and `A` to `Z`, and beyond them what Unicode calls alphabetic.
pub open spec fn is_alphabetic(c: char) -> bool {
    if (c as u32) < 0x80 {
        is_letter(c) || 'A' <= c <= 'Z'
    } else {
        unicode_alphabetic(c)
    }
}

/// How many leading letters are given up as labels of their own, to begin two-letter labels,
/// when `n` matches are to be labelled.
pub open spec fn spent(n: nat) -> nat {
    if n / 26 <= 26 {
        n / 26
    } else {
        26
    }
}

/// How many labels are made for `n` matches.
pub open spec fn label_count(n: nat) -> nat {
    26 + 25 * spent(n)
}

/// Label `i` of those made for `n` matches: first the letters that were not spent, in
/// alphabetical order, then each spent letter followed by each letter of the alphabet.
pub open spec fn label_at(n: nat, i: int) -> Seq<char>
    recommends
        0 <= i < label_count(n),
{
    let ones = 26 - spent(n);
    if i < ones {
        seq![letter_at(spent(n) + i)]
    } else {
        seq![letter_at((i - ones) / 26), letter_at((i - ones) % 26)]
    }
}

/// Whether `labels` holds exactly the labels made for `n` matches, in their order.
pub open spec fn labels_for(n: nat, labels: Seq<String>) -> bool {
    &&& labels.len() == label_count(n)
    &&& forall|i: int| 0 <= i < labels.len() ==> (#[trigger] labels[i])@ == label_at(n, i)
}

/// Calls `String::push` of std, of which nothing is proved here. The contract takes it that
/// the string afterwards is the string before with `c` appended. It asks for a short
/// string, since `push` panics where the capacity would overflow.
#[verifier::external_body]
pub(crate) fn push_char(s: &mut String, c: char)
    requires
        old(s)@.len() < 1024,
    ensures
        final(s)@ == old(s)@.push(c),
{
    s.push(c);
}

/// Calls `char::is_alphabetic` of std, of which nothing is proved here. The contract gives
/// the result its name and says nothing of what it is for any character.
#[verifier::external_body]
fn std_alphabetic(c: char) -> (b: bool)
    ensures
        b == unicode_alphabetic(c),
{
    c.is_alphabetic()
}

/// Tells whether a character is alphabetic.
pub fn alphabetic(c: char) -> (b: bool)
    ensures
        b == is_alphabetic(c),
{
    if (c as u32) < 0x80 {
        ('a' <= c && c <= 'z') || ('A' <= c && c <= 'Z')
    } else {
        std_alphabetic(c)
    }
}

/// The letter with index `i`.
pub fn letter(i: usize) -> (c: char)
    requires
        i < LETTERS,
    ensures
        c == letter_at(i as int),
        is_letter(c),
{
    let code: u8 = 97 + (i as u8);
    code as char
}

/// Whether `c` is one of the letters `a` to `z`.
pub fn in_alphabet(c: char) -> (b: bool)
    ensures
        b == is_letter(c),
{
    'a' <= c && c <= 'z'
}

/// The label of one letter.
fn single(a: char) -> (s: String)
    ensures
        s@ == seq![a],
{
    let mut s = String::new();
    push_char(&mut s, a);
    s
}

/// The label of two letters.
fn pair(a: char, b: char) -> (s: String)
    ensures
        s@ == seq![a, b],
{
    let mut s = String::new();
    push_char(&mut s, a);
    push_char(&mut s, b);
    s
}

/// Makes the labels for `len` matches.
pub fn key_seqs(len: usize) -> (seqs: Vec<String>)
    ensures
        labels_for(len as nat, seqs@),
{
    let double: usize = if len / LETTERS <= LETTERS {
        len / LETTERS
    } else {
        LETTERS
    };
    let ones: usize = LETTERS - double;
    let mut seqs: Vec<String> = Vec::new();
    let mut i: usize = double;
    while i < LETTERS
        invariant
            double == spent(len as nat),
            ones == 26 - double,
            double <= i <= 26,
            seqs@.len() == i - double,
            forall|k: int| 0 <= k < seqs@.len() ==> (#[trigger] seqs@[k])@ == label_at(len as nat, k),
        decreases 26 - i,
    {
        seqs.push(single(letter(i)));
        i += 1;
    }
    let mut a: usize = 0;
    while a < double
        invariant
            double == spent(len as nat),
            ones == 26 - double,
            double <= 26,
            a <= double,
            seqs@.len() == ones + a * 26,
            forall|k: int| 0 <= k < seqs@.len() ==> (#[trigger] seqs@[k])@ == label_at(len as nat, k),
        decreases double - a,
    {
        let mut b: usize = 0;
        while b < LETTERS
            invariant
                double == spent(len as nat),
                ones == 26 - double,
                double <= 26,
                a < double,
                b <= 26,
                seqs@.len() == ones + a * 26 + b,
                forall|k: int| 0 <= k < seqs@.len() ==> (#[trigger] seqs@[k])@ == label_at(len as nat, k),
            decreases 26 - b,
        {
            seqs.push(pair(letter(a), letter(b)));
            b += 1;
        }
        a += 1;
    }
    seqs
}

/// Every label is one letter or two, each of the alphabet; the one-letter labels come first.
pub proof fn lemma_label_shape(n: nat, i: int)
    requires
        0 <= i < label_count(n),
    ensures
        label_at(n, i).len() == 1 || label_at(n, i).len() == 2,
        label_at(n, i).len() == 1 <==> i < 26 - spent(n),
        forall|k: int| 0 <= k < label_at(n, i).len() ==> is_letter(#[trigger] label_at(n, i)[k]),
        label_at(n, i).len() == 2 ==> label_at(n, i)[0] < letter_at(spent(n) as int),
        label_at(n, i).len() == 1 ==> label_at(n, i)[0] >= letter_at(spent(n) as int),
{
}

/// No label begins another: two labels at different places are different, and neither is
/// the start of the other.
pub proof fn lemma_labels_prefix_free(n: nat, i: int, j: int)
    requires
        0 <= i < label_count(n),
        0 <= j < label_count(n),
        i != j,
    ensures
        !label_at(n, i).is_prefix_of(label_at(n, j)),
{
    let a = label_at(n, i);
    let b = label_at(n, j);
    lemma_label_shape(n, i);
    lemma_label_shape(n, j);
    if a.is_prefix_of(b) {
        assert(a =~= b.subrange(0, a.len() as int));
        assert(a[0] == b.subrange(0, a.len() as int)[0]);
        assert(a[0] == b[0]);
        if a.len() == 2 {
            assert(b.len() == 2);
            assert(a[1] == b.subrange(0, a.len() as int)[1]);
            assert(a[1] == b[1]);
        }
    }
}

/// The labels made for `n` matches are at least `n` exactly when the quotient and the
/// remainder of `n` by 26 add up to 26 at most; so for every `n` up to 76.
pub proof fn lemma_label_count_covers(n: nat)
    ensures
        label_count(n) >= n <==> n / 26 + n % 26 <= 26,
        n <= 76 ==> label_count(n) >= n,
{
}

} // verus!
