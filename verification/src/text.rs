//! Character-level helpers shared by the lexer and the symbol table.

use vstd::prelude::*;
use vstd::utf8::*;

verus! {

/// Number of bytes of the UTF-8 encoding of `c`.
pub open spec fn utf8_width(c: char) -> nat {
    encode_scalar(c as u32).len()
}

/// Byte offset, in the UTF-8 encoding of `s`, of the character at index `k`.
pub open spec fn byte_pos(s: Seq<char>, k: int) -> nat {
    encode_utf8(s.take(k)).len()
}

/// Number of bytes of the UTF-8 encoding of the whole of `s`.
pub open spec fn byte_len(s: Seq<char>) -> nat {
    encode_utf8(s).len()
}

/// UTF-8 encoding distributes over concatenation.
pub proof fn lemma_encode_concat(a: Seq<char>, b: Seq<char>)
    ensures
        encode_utf8(a + b) == encode_utf8(a) + encode_utf8(b),
    decreases a.len(),
{
    if a.len() == 0 {
        assert(a + b =~= b);
    } else {
        lemma_encode_concat(a.drop_first(), b);
        assert((a + b).drop_first() =~= a.drop_first() + b);
    }
}

/// Advancing by one character advances the byte offset by the width of that character.
pub proof fn lemma_byte_pos_step(s: Seq<char>, k: int)
    requires
        0 <= k < s.len(),
    ensures
        byte_pos(s, k + 1) == byte_pos(s, k) + utf8_width(s[k]),
{
    assert(s.take(k + 1) =~= s.take(k) + seq![s[k]]);
    lemma_encode_concat(s.take(k), seq![s[k]]);
    let one = seq![s[k]];
    assert(one.drop_first() =~= Seq::<char>::empty());
    assert(encode_utf8(Seq::<char>::empty()) =~= Seq::<u8>::empty());
    assert(encode_utf8(one) == encode_scalar(one[0] as u32) + encode_utf8(one.drop_first()));
    assert(encode_utf8(one) =~= encode_scalar(s[k] as u32));
}

/// Byte offsets grow strictly with the character index.
pub proof fn lemma_byte_pos_mono(s: Seq<char>, j: int, k: int)
    requires
        0 <= j <= k <= s.len(),
    ensures
        byte_pos(s, j) + (k - j) <= byte_pos(s, k),
        byte_pos(s, k) <= byte_pos(s, s.len() as int),
        byte_pos(s, s.len() as int) == byte_len(s),
    decreases k - j,
{
    assert(s.take(s.len() as int) =~= s);
    lemma_byte_pos_tail(s, k);
    if j < k {
        lemma_byte_pos_mono(s, j, k - 1);
        lemma_byte_pos_step(s, k - 1);
    }
}

proof fn lemma_byte_pos_tail(s: Seq<char>, k: int)
    requires
        0 <= k <= s.len(),
    ensures
        byte_pos(s, k) <= byte_pos(s, s.len() as int),
    decreases s.len() - k,
{
    if k < s.len() {
        lemma_byte_pos_step(s, k);
        lemma_byte_pos_tail(s, k + 1);
    }
}

/// The UTF-8 width of a character, computed from its scalar value.
pub fn char_width(c: char) -> (w: usize)
    ensures
        w == utf8_width(c),
        1 <= w <= 4,
{
    proof {
        char_is_scalar(c);
    }
    let u = c as u32;
    if u <= 0x7F {
        1
    } else if u <= 0x7FF {
        2
    } else if u <= 0xFFFF {
        3
    } else {
        4
    }
}

/// The characters of a string slice, in order.
pub fn chars_of(s: &str) -> (v: Vec<char>)
    ensures
        v@ == s@,
{
    let mut v: Vec<char> = Vec::new();
    for c in it: s.chars()
        invariant
            v@ == it.seq().take(it.index() as int),
            it.seq() == s@,
    {
        v.push(c);
    }
    v
}

/// The owned string made of the given characters.
///
/// Trusted: calls `String::from_iter` of std, whose documentation says that the
/// string collected from an iterator of `char` consists of those characters in
/// order; the contract claims exactly that.
#[verifier::external_body]
pub fn string_from_chars(chars: &[char]) -> (s: String)
    ensures
        s@ == chars@,
{
    String::from_iter(chars.iter())
}

/// The characters `chars[lo..hi]`, copied into a new vector.
pub fn copy_range(chars: &[char], lo: usize, hi: usize) -> (v: Vec<char>)
    requires
        lo <= hi <= chars@.len(),
    ensures
        v@ == chars@.subrange(lo as int, hi as int),
{
    let mut v: Vec<char> = Vec::new();
    let mut k = lo;
    while k < hi
        invariant
            lo <= k <= hi <= chars@.len(),
            v@ == chars@.subrange(lo as int, k as int),
        decreases hi - k,
    {
        v.push(chars[k]);
        k += 1;
        assert(v@ =~= chars@.subrange(lo as int, k as int));
    }
    v
}

/// Whether `chars[lo..hi]` spells exactly `lit`.
pub fn range_eq(chars: &[char], lo: usize, hi: usize, lit: &[char]) -> (r: bool)
    requires
        lo <= hi <= chars@.len(),
    ensures
        r == (chars@.subrange(lo as int, hi as int) == lit@),
{
    if hi - lo != lit.len() {
        assert(chars@.subrange(lo as int, hi as int).len() != lit@.len());
        return false;
    }
    let mut k: usize = 0;
    while k < lit.len()
        invariant
            lo <= hi <= chars@.len(),
            hi - lo == lit@.len(),
            k <= lit@.len(),
            forall|j: int| 0 <= j < k ==> chars@[lo + j] == lit@[j],
        decreases lit.len() - k,
    {
        if chars[lo + k] != lit[k] {
            assert(chars@.subrange(lo as int, hi as int)[k as int] != lit@[k as int]);
            return false;
        }
        k += 1;
    }
    assert(chars@.subrange(lo as int, hi as int) =~= lit@);
    true
}

/// Whether `s` is exactly the text `lit`.
pub fn text_is(s: &str, lit: &[char]) -> (r: bool)
    ensures
        r == (s@ == lit@),
{
    let cs = chars_of(s);
    let n = cs.len();
    proof {
        assert(cs@.subrange(0, n as int) =~= cs@);
    }
    range_eq(&cs, 0, n, lit)
}

/// The decimal digit character for `d < 10`.
pub open spec fn digit_char(d: nat) -> char {
    ((d + 48) as u8) as char
}

/// The decimal numeral of `n`, without leading zeros.
pub open spec fn decimal(n: nat) -> Seq<char>
    decreases n,
{
    if n < 10 {
        seq![digit_char(n)]
    } else {
        decimal(n / 10).push(digit_char(n % 10))
    }
}

/// The decimal numeral of `v`, with a minus sign when negative.
pub open spec fn signed_decimal(v: int) -> Seq<char> {
    if v < 0 {
        seq!['-'] + decimal((-v) as nat)
    } else {
        decimal(v as nat)
    }
}

/// Appends the decimal numeral of `n` to `out`.
pub fn push_decimal(n: u64, out: &mut Vec<char>)
    ensures
        final(out)@ == old(out)@ + decimal(n as nat),
    decreases n,
{
    if n >= 10 {
        push_decimal(n / 10, out);
    }
    let d = (n % 10) as u8;
    out.push((d + 48) as char);
    proof {
        assert(digit_char((n % 10) as nat) == (d + 48) as char);
    }
}

/// The decimal numeral of `v`.
pub fn signed_decimal_chars(v: i64) -> (r: Vec<char>)
    ensures
        r@ == signed_decimal(v as int),
{
    let mut out: Vec<char> = Vec::new();
    if v < 0 {
        out.push('-');
        let m: u64 = if v == i64::MIN {
            9223372036854775808u64
        } else {
            (-v) as u64
        };
        push_decimal(m, &mut out);
    } else {
        push_decimal(v as u64, &mut out);
    }
    assert(out@ =~= signed_decimal(v as int));
    out
}

/// The part of `s` after its last `.`: all of `s` where it has none.
pub open spec fn last_segment(s: Seq<char>) -> Seq<char>
    decreases s.len(),
{
    if s.len() == 0 {
        s
    } else if s.last() == '.' {
        Seq::empty()
    } else {
        last_segment(s.drop_last()).push(s.last())
    }
}

proof fn lemma_last_segment(s: Seq<char>, k: int)
    requires
        0 <= k <= s.len(),
        k == 0 || s[k - 1] == '.',
        forall|j: int| k <= j < s.len() ==> s[j] != '.',
    ensures
        last_segment(s) == s.subrange(k, s.len() as int),
    decreases s.len(),
{
    if s.len() == k {
        if k > 0 {
            assert(s.last() == '.');
        }
        assert(s.subrange(k, s.len() as int) =~= Seq::<char>::empty());
    } else {
        lemma_last_segment(s.drop_last(), k);
        assert(s.subrange(k, s.len() as int) =~= s.drop_last().subrange(k, s.len() - 1).push(
            s.last(),
        ));
    }
}

/// The last segment of a dotted name: `"a.b.C"` gives `"C"`.
pub fn simple_name(full: &str) -> (r: String)
    ensures
        r@ == last_segment(full@),
{
    let cs = chars_of(full);
    let mut k: usize = cs.len();
    while k > 0 && cs[k - 1] != '.'
        invariant
            k <= cs@.len(),
            forall|j: int| k <= j < cs@.len() ==> cs@[j] != '.',
        decreases k,
    {
        k = k - 1;
    }
    proof {
        lemma_last_segment(cs@, k as int);
    }
    let seg = copy_range(&cs, k, cs.len());
    string_from_chars(&seg)
}

} // verus!
