//! Text helpers: building strings character by character, decimal and
//! hexadecimal rendering, lexicographic order, and the few Unicode-aware std
//! operations that the rules rely on.

use vstd::prelude::*;

verus! {

/// Appends one character to a string (std `String::push`).
/// Claimed: the new text is the old text followed by `c`.
#[verifier::external_body]
pub(crate) fn push_char(s: &mut String, c: char)
    ensures
        final(s)@ == old(s)@.push(c),
{
    s.push(c);
}

/// Appends a string slice.
pub fn push_str(s: &mut String, t: &str)
    ensures
        final(s)@ == old(s)@ + t@,
{
    s.append(t);
}

/// A fresh string holding the text of `t`.
pub fn owned(t: &str) -> (r: String)
    ensures
        r@ == t@,
{
    String::from_str(t)
}

/// The characters of a string, in order.
pub fn chars_of(s: &str) -> (v: Vec<char>)
    ensures
        v@ == s@,
{
    let mut v: Vec<char> = Vec::new();
    for c in it: s.chars()
        invariant
            v@ == it.seq().take(it.index() as int),
            it.seq() == s@,
    {
        v.push(c);
        assert(it.seq().take(it.index() as int + 1) =~= v@);
    }
    v
}

/// Whether two texts are equal.
pub fn str_eq(a: &str, b: &str) -> (r: bool)
    ensures
        r == (a@ == b@),
{
    let ca = chars_of(a);
    let cb = chars_of(b);
    if ca.len() != cb.len() {
        return false;
    }
    let mut i: usize = 0;
    while i < ca.len()
        invariant
            i <= ca.len(),
            ca.len() == cb.len(),
            ca@ == a@,
            cb@ == b@,
            forall|k: int| 0 <= k < i ==> ca@[k] == cb@[k],
        decreases ca.len() - i,
    {
        if ca[i] != cb[i] {
            return false;
        }
        i = i + 1;
    }
    assert(ca@ =~= cb@);
    true
}

/// A string made of the given characters.
pub fn string_from_chars(v: &Vec<char>) -> (s: String)
    ensures
        s@ == v@,
{
    let mut s = String::new();
    let mut i: usize = 0;
    while i < v.len()
        invariant
            i <= v.len(),
            s@ == v@.take(i as int),
        decreases v.len() - i,
    {
        push_char(&mut s, v[i]);
        i = i + 1;
        assert(v@.take(i as int) =~= v@.take(i - 1).push(v@[i - 1]));
    }
    assert(v@.take(v.len() as int) =~= v@);
    s
}

/// The Unicode `Alphabetic` property of a character, as std's
/// `char::is_alphabetic` decides it.
pub uninterp spec fn is_alphabetic_char(c: char) -> bool;

/// Whether `c` is alphabetic (std `char::is_alphabetic`).
/// Claimed: the answer is `is_alphabetic_char(c)`, a function of `c` alone.
#[verifier::external_body]
pub(crate) fn is_alphabetic(c: char) -> (b: bool)
    ensures
        b == is_alphabetic_char(c),
{
    c.is_alphabetic()
}

/// The text with leading and trailing Unicode white space removed, as std's
/// `str::trim` computes it.
pub uninterp spec fn trim_text(t: Seq<char>) -> Seq<char>;

/// Trims white space at both ends (std `str::trim`).
/// Claimed: the result's text is `trim_text` of the argument's text, and a
/// text that starts and ends with an ASCII letter or digit (neither is
/// white space) comes back unchanged.
#[verifier::external_body]
pub(crate) fn trimmed(t: &str) -> (r: &str)
    ensures
        r@ == trim_text(t@),
        t@.len() > 0 && is_ascii_alnum_char(t@[0]) && is_ascii_alnum_char(t@.last()) ==> r@ == t@,
{
    t.trim()
}

/// The lower-case form of a text, as std's `str::to_lowercase` computes it.
pub uninterp spec fn lower_text(t: Seq<char>) -> Seq<char>;

/// Lower-cases a text (std `str::to_lowercase`).
/// Claimed: the result's text is `lower_text` of the argument's text.
#[verifier::external_body]
pub(crate) fn lowercased(t: &str) -> (r: String)
    ensures
        r@ == lower_text(t@),
{
    t.to_lowercase()
}

/// The upper-case form of a text, as std's `str::to_uppercase` computes it.
pub uninterp spec fn upper_text(t: Seq<char>) -> Seq<char>;

/// Upper-cases a text (std `str::to_uppercase`).
/// Claimed: the result's text is `upper_text` of the argument's text, and a
/// text of ASCII capital letters (each its own upper case) comes back
/// unchanged.
#[verifier::external_body]
pub(crate) fn uppercased(t: &str) -> (r: String)
    ensures
        r@ == upper_text(t@),
        (forall|i: int| 0 <= i < t@.len() ==> 'A' <= #[trigger] t@[i] <= 'Z') ==> r@ == t@,
{
    t.to_uppercase()
}

/// The quoted, escaped form of a text, as std's `Debug` for `str` writes it.
pub uninterp spec fn debug_text(t: Seq<char>) -> Seq<char>;

/// The `Debug` rendering of a text (std `<str as Debug>::fmt`).
/// Claimed: the result's text is `debug_text` of the argument's text.
#[verifier::external_body]
pub(crate) fn debug_quoted(t: &str) -> (r: String)
    ensures
        r@ == debug_text(t@),
{
    format!("{:?}", t)
}

/// Whether `c` is an ASCII letter or digit.
pub open spec fn is_ascii_alnum_char(c: char) -> bool {
    ('0' <= c && c <= '9') || ('A' <= c && c <= 'Z') || ('a' <= c && c <= 'z')
}

/// Whether `c` is an ASCII letter or digit (as std's
/// `char::is_ascii_alphanumeric`).
pub fn is_ascii_alnum(c: char) -> (b: bool)
    ensures
        b == is_ascii_alnum_char(c),
{
    ('0' <= c && c <= '9') || ('A' <= c && c <= 'Z') || ('a' <= c && c <= 'z')
}

/// The number of bytes `c` takes in UTF-8.
pub open spec fn utf8_width(c: char) -> nat {
    if (c as u32) < 0x80 {
        1
    } else if (c as u32) < 0x800 {
        2
    } else if (c as u32) < 0x10000 {
        3
    } else {
        4
    }
}

/// The number of bytes a text takes in UTF-8 (what `str::len` returns).
pub open spec fn utf8_len(t: Seq<char>) -> nat
    decreases t.len(),
{
    if t.len() == 0 {
        0
    } else {
        utf8_len(t.drop_last()) + utf8_width(t.last())
    }
}

proof fn lemma_utf8_len_grows(t: Seq<char>, i: int)
    requires
        0 <= i <= t.len(),
    ensures
        utf8_len(t.take(i)) <= utf8_len(t),
    decreases t.len() - i,
{
    if i < t.len() {
        lemma_utf8_len_grows(t, i + 1);
        assert(t.take(i + 1).drop_last() =~= t.take(i));
    } else {
        assert(t.take(i) =~= t);
    }
}

/// Whether `t` takes at least `n` bytes in UTF-8.
pub fn utf8_len_at_least(t: &str, n: usize) -> (r: bool)
    requires
        n <= 1024,
    ensures
        r == (utf8_len(t@) >= n),
{
    let cs = chars_of(t);
    let mut total: usize = 0;
    let mut i: usize = 0;
    assert(cs@.take(0) =~= Seq::<char>::empty());
    while i < cs.len() && total < n
        invariant
            i <= cs.len(),
            cs@ == t@,
            total == utf8_len(cs@.take(i as int)),
            total <= n + 4,
            n <= 1024,
        decreases cs.len() - i,
    {
        let c = cs[i];
        let w: usize = if (c as u32) < 0x80 {
            1
        } else if (c as u32) < 0x800 {
            2
        } else if (c as u32) < 0x10000 {
            3
        } else {
            4
        };
        assert(cs@.take(i + 1).drop_last() =~= cs@.take(i as int));
        total = total + w;
        i = i + 1;
    }
    proof {
        if total < n {
            assert(cs@.take(i as int) =~= cs@);
        } else {
            lemma_utf8_len_grows(cs@, i as int);
        }
    }
    total >= n
}

// ---------------------------------------------------------------------------
// Numbers
// ---------------------------------------------------------------------------

/// The decimal digit character for `d` (0..=9).
pub open spec fn digit_char(d: nat) -> char {
    if d == 0 {
        '0'
    } else if d == 1 {
        '1'
    } else if d == 2 {
        '2'
    } else if d == 3 {
        '3'
    } else if d == 4 {
        '4'
    } else if d == 5 {
        '5'
    } else if d == 6 {
        '6'
    } else if d == 7 {
        '7'
    } else if d == 8 {
        '8'
    } else {
        '9'
    }
}

/// Decimal rendering of a natural number, without leading zeros.
pub open spec fn decimal_text(n: nat) -> Seq<char>
    decreases n,
{
    if n < 10 {
        seq![digit_char(n)]
    } else {
        decimal_text(n / 10).push(digit_char(n % 10))
    }
}

/// Decimal rendering of an integer, with a minus sign when negative.
pub open spec fn int_text(i: int) -> Seq<char> {
    if i < 0 {
        seq!['-'] + decimal_text((-i) as nat)
    } else {
        decimal_text(i as nat)
    }
}

fn digit_of(d: u128) -> (c: char)
    requires
        d < 10,
    ensures
        c == digit_char(d as nat),
{
    if d == 0 {
        '0'
    } else if d == 1 {
        '1'
    } else if d == 2 {
        '2'
    } else if d == 3 {
        '3'
    } else if d == 4 {
        '4'
    } else if d == 5 {
        '5'
    } else if d == 6 {
        '6'
    } else if d == 7 {
        '7'
    } else if d == 8 {
        '8'
    } else {
        '9'
    }
}

/// Appends the decimal rendering of `n`.
pub fn push_decimal(s: &mut String, n: u128)
    ensures
        final(s)@ == old(s)@ + decimal_text(n as nat),
    decreases n,
{
    if n < 10 {
        push_char(s, digit_of(n));
    } else {
        push_decimal(s, n / 10);
        push_char(s, digit_of(n % 10));
    }
}

/// Appends the decimal rendering of a signed number.
pub fn push_int(s: &mut String, i: i128)
    ensures
        final(s)@ == old(s)@ + int_text(i as int),
{
    if i < 0 {
        push_char(s, '-');
        let m: u128 = if i == i128::MIN {
            (i128::MAX as u128) + 1
        } else {
            (-i) as u128
        };
        push_decimal(s, m);
        assert(final(s)@ =~= old(s)@ + (seq!['-'] + decimal_text((-i) as nat)));
    } else {
        push_decimal(s, i as u128);
    }
}

/// The lower-case hexadecimal digit character for `d` (0..=15).
pub open spec fn hex_char(d: nat) -> char {
    if d < 10 {
        digit_char(d)
    } else if d == 10 {
        'a'
    } else if d == 11 {
        'b'
    } else if d == 12 {
        'c'
    } else if d == 13 {
        'd'
    } else if d == 14 {
        'e'
    } else {
        'f'
    }
}

/// The last `width` lower-case hexadecimal digits of `n`, most significant
/// first (zero padded).
pub open spec fn hex_text(n: nat, width: nat) -> Seq<char>
    decreases width,
{
    if width == 0 {
        Seq::empty()
    } else {
        hex_text(n / 16, (width - 1) as nat).push(hex_char(n % 16))
    }
}

fn hex_of(d: u32) -> (c: char)
    requires
        d < 16,
    ensures
        c == hex_char(d as nat),
{
    if d < 10 {
        digit_of(d as u128)
    } else if d == 10 {
        'a'
    } else if d == 11 {
        'b'
    } else if d == 12 {
        'c'
    } else if d == 13 {
        'd'
    } else if d == 14 {
        'e'
    } else {
        'f'
    }
}

/// Appends `width` lower-case hexadecimal digits of `n` (zero padded).
pub fn push_hex(s: &mut String, n: u32, width: u32)
    ensures
        final(s)@ == old(s)@ + hex_text(n as nat, width as nat),
    decreases width,
{
    if width > 0 {
        push_hex(s, n / 16, width - 1);
        push_char(s, hex_of(n % 16));
    }
}

// ---------------------------------------------------------------------------
// Lexicographic order (the order of `str`/`String`)
// ---------------------------------------------------------------------------

/// `a` sorts strictly before `b` when compared character by character from
/// position `i` on, a proper prefix sorting first.
pub open spec fn text_lt_from(a: Seq<char>, b: Seq<char>, i: int) -> bool
    decreases a.len() - i,
{
    if i < 0 || i >= a.len() {
        0 <= i < b.len()
    } else if i >= b.len() {
        false
    } else if a[i] != b[i] {
        (a[i] as int) < (b[i] as int)
    } else {
        text_lt_from(a, b, i + 1)
    }
}

/// `a` sorts strictly before `b` in lexicographic order of code points, the
/// order of `String` (UTF-8 preserves the order of code points).
pub open spec fn text_lt(a: Seq<char>, b: Seq<char>) -> bool {
    text_lt_from(a, b, 0)
}

proof fn lemma_text_lt_from_irreflexive(a: Seq<char>, i: int)
    requires
        0 <= i <= a.len(),
    ensures
        !text_lt_from(a, a, i),
    decreases a.len() - i,
{
    if i < a.len() {
        lemma_text_lt_from_irreflexive(a, i + 1);
    }
}

proof fn lemma_text_lt_from_total(a: Seq<char>, b: Seq<char>, i: int)
    requires
        0 <= i <= a.len(),
        i <= b.len(),
        a.subrange(0, i) == b.subrange(0, i),
        a != b,
    ensures
        text_lt_from(a, b, i) || text_lt_from(b, a, i),
    decreases a.len() - i,
{
    if i < a.len() && i < b.len() && a[i] == b[i] {
        assert(a.subrange(0, i + 1) =~= a.subrange(0, i).push(a[i]));
        assert(b.subrange(0, i + 1) =~= b.subrange(0, i).push(b[i]));
        lemma_text_lt_from_total(a, b, i + 1);
    } else if i == a.len() && i == b.len() {
        assert(a =~= a.subrange(0, i));
        assert(b =~= b.subrange(0, i));
    } else if i < a.len() && i < b.len() {
        assert((a[i] as int) != (b[i] as int));
    }
}

proof fn lemma_text_lt_from_asym(a: Seq<char>, b: Seq<char>, i: int)
    requires
        0 <= i,
        text_lt_from(a, b, i),
    ensures
        !text_lt_from(b, a, i),
    decreases a.len() - i,
{
    if i < a.len() && i < b.len() && a[i] == b[i] {
        lemma_text_lt_from_asym(a, b, i + 1);
    }
}

proof fn lemma_text_lt_from_trans(a: Seq<char>, b: Seq<char>, c: Seq<char>, i: int)
    requires
        0 <= i,
        text_lt_from(a, b, i),
        text_lt_from(b, c, i),
    ensures
        text_lt_from(a, c, i),
    decreases a.len() - i,
{
    if i < a.len() && i < b.len() && i < c.len() && a[i] == b[i] && b[i] == c[i] {
        lemma_text_lt_from_trans(a, b, c, i + 1);
    }
}

/// The text order is a strict total order.
pub proof fn lemma_text_order(a: Seq<char>, b: Seq<char>, c: Seq<char>)
    ensures
        !text_lt(a, a),
        text_lt(a, b) ==> !text_lt(b, a),
        a != b ==> text_lt(a, b) || text_lt(b, a),
        text_lt(a, b) && text_lt(b, c) ==> text_lt(a, c),
{
    lemma_text_lt_from_irreflexive(a, 0);
    if a != b {
        assert(a.subrange(0, 0) =~= b.subrange(0, 0));
        lemma_text_lt_from_total(a, b, 0);
    }
    if text_lt(a, b) {
        lemma_text_lt_from_asym(a, b, 0);
        if text_lt(b, c) {
            lemma_text_lt_from_trans(a, b, c, 0);
        }
    }
}

/// Whether `a` sorts strictly before `b` (`a < b` on strings).
pub fn text_less(a: &Vec<char>, b: &Vec<char>) -> (r: bool)
    ensures
        r == text_lt(a@, b@),
{
    let mut i: usize = 0;
    while i < a.len() && i < b.len() && a[i] == b[i]
        invariant
            i <= a.len(),
            i <= b.len(),
            text_lt_from(a@, b@, 0) == text_lt_from(a@, b@, i as int),
        decreases a.len() - i,
    {
        i = i + 1;
    }
    if i >= a.len() {
        i < b.len()
    } else if i >= b.len() {
        false
    } else {
        a[i] < b[i]
    }
}

} // verus!
