//! Character-level helpers shared by the line parser and the line formatter:
//! decimal digits, tab scanning, and plain string comparison.

use vstd::prelude::*;

verus! {

pub open spec fn is_digit(c: char) -> bool {
    48 <= c as int <= 57
}

pub open spec fn digit_val(c: char) -> int {
    c as int - 48
}

pub open spec fn char_of_digit(d: int) -> char {
    if d == 0 {
        '0'
    } else if d == 1 {
        '1'
    } else if d == 2 {
        '2'
    } else if d == 3 {
        '3'
    } else if d == 4 {
        '4'
    } else if d == 5 {
        '5'
    } else if d == 6 {
        '6'
    } else if d == 7 {
        '7'
    } else if d == 8 {
        '8'
    } else {
        '9'
    }
}

/// The least index at or after `from` holding a tab, or `s.len()` if there
/// is none.
pub open spec fn first_tab_at(s: Seq<char>, from: int) -> int
    decreases s.len() - from,
{
    if from < 0 || from >= s.len() {
        s.len() as int
    } else if s[from] == '\t' {
        from
    } else {
        first_tab_at(s, from + 1)
    }
}

pub proof fn lemma_first_tab_at_props(s: Seq<char>, from: int)
    requires
        0 <= from <= s.len(),
    ensures
        from <= first_tab_at(s, from) <= s.len(),
        first_tab_at(s, from) < s.len() ==> s[first_tab_at(s, from)] == '\t',
        forall|i: int| from <= i < first_tab_at(s, from) ==> s[i] != '\t',
    decreases s.len() - from,
{
    if from < s.len() && s[from] != '\t' {
        lemma_first_tab_at_props(s, from + 1);
    }
}

pub open spec fn no_tabs(s: Seq<char>) -> bool {
    forall|i: int| 0 <= i < s.len() ==> s[i] != '\t'
}

/// Scanning from inside a tab-free stretch that ends at the tab at `k` finds
/// exactly that tab.
pub proof fn lemma_first_tab_found(s: Seq<char>, from: int, k: int)
    requires
        0 <= from <= k < s.len(),
        s[k] == '\t',
        forall|i: int| from <= i < k ==> s[i] != '\t',
    ensures
        first_tab_at(s, from) == k,
    decreases k - from,
{
    if from < k {
        lemma_first_tab_found(s, from + 1, k);
    }
}

/// Scanning a tab-free suffix that runs to the end finds nothing.
pub proof fn lemma_first_tab_none(s: Seq<char>, from: int)
    requires
        0 <= from <= s.len(),
        forall|i: int| from <= i < s.len() ==> s[i] != '\t',
    ensures
        first_tab_at(s, from) == s.len(),
    decreases s.len() - from,
{
    if from < s.len() {
        lemma_first_tab_none(s, from + 1);
    }
}

/// All characters of `s`, in order, with every tab removed. The trailing
/// fields of a log line are joined this way when reporting them.
pub open spec fn strip_tabs(s: Seq<char>) -> Seq<char>
    decreases s.len(),
{
    if s.len() == 0 {
        Seq::empty()
    } else if s[0] == '\t' {
        strip_tabs(s.skip(1))
    } else {
        seq![s[0]] + strip_tabs(s.skip(1))
    }
}

/// A tab-free prefix passes through `strip_tabs` unchanged.
pub proof fn lemma_strip_tabs_concat(a: Seq<char>, b: Seq<char>)
    requires
        no_tabs(a),
    ensures
        strip_tabs(a + b) == a + strip_tabs(b),
    decreases a.len(),
{
    if a.len() == 0 {
        assert(a + b =~= b);
        assert(a + strip_tabs(b) =~= strip_tabs(b));
    } else {
        lemma_strip_tabs_concat(a.skip(1), b);
        assert((a + b).skip(1) =~= a.skip(1) + b);
        assert(seq![a[0]] + (a.skip(1) + strip_tabs(b)) =~= a + strip_tabs(b));
    }
}

/// The index of the first tab of `s` at or after `from`, or the character
/// count of `s` if there is none.
pub fn find_tab(s: &str, from: usize) -> (r: usize)
    requires
        from <= s@.len(),
    ensures
        r == first_tab_at(s@, from as int),
{
    let n: usize = s.unicode_len();
    let mut i: usize = from;
    while i < n
        invariant
            from <= i <= n,
            n == s@.len(),
            first_tab_at(s@, from as int) == first_tab_at(s@, i as int),
        decreases n - i,
    {
        if s.get_char(i) == '\t' {
            return i;
        }
        i = i + 1;
    }
    i
}

/// Plain comparison of two strings, character by character.
pub fn str_equal(a: &str, b: &str) -> (r: bool)
    ensures
        r == (a@ == b@),
{
    let na: usize = a.unicode_len();
    let nb: usize = b.unicode_len();
    if na != nb {
        assert(a@ != b@);
        return false;
    }
    let mut i: usize = 0;
    while i < na
        invariant
            0 <= i <= na,
            na == a@.len(),
            na == b@.len(),
            forall|j: int| 0 <= j < i ==> a@[j] == b@[j],
        decreases na - i,
    {
        if a.get_char(i) != b.get_char(i) {
            return false;
        }
        i = i + 1;
    }
    assert(a@ =~= b@);
    true
}

/// Appends the two decimal digits of `v` (zero-padded) to `out`.
pub fn push_two_digits(out: &mut String, v: u8)
    requires
        v < 100,
    ensures
        final(out)@ == old(out)@ + seq![
            char_of_digit(v as int / 10),
            char_of_digit(v as int % 10),
        ],
{
    out.append(digit_str(v / 10));
    out.append(digit_str(v % 10));
    assert(final(out)@ =~= old(out)@ + seq![
        char_of_digit(v as int / 10),
        char_of_digit(v as int % 10),
    ]);
}

/// Appends the four decimal digits of `v` (zero-padded) to `out`.
pub fn push_four_digits(out: &mut String, v: u16)
    requires
        v < 10000,
    ensures
        final(out)@ == old(out)@ + seq![
            char_of_digit(v as int / 1000),
            char_of_digit(v as int / 100 % 10),
            char_of_digit(v as int / 10 % 10),
            char_of_digit(v as int % 10),
        ],
{
    out.append(digit_str((v / 1000) as u8));
    out.append(digit_str((v / 100 % 10) as u8));
    out.append(digit_str((v / 10 % 10) as u8));
    out.append(digit_str((v % 10) as u8));
    assert(final(out)@ =~= old(out)@ + seq![
        char_of_digit(v as int / 1000),
        char_of_digit(v as int / 100 % 10),
        char_of_digit(v as int / 10 % 10),
        char_of_digit(v as int % 10),
    ]);
}

/// The decimal digits of `v`, most significant first, without padding.
pub open spec fn dec_text(v: int) -> Seq<char>
    decreases v,
{
    if v < 10 {
        seq![char_of_digit(v)]
    } else {
        dec_text(v / 10) + seq![char_of_digit(v % 10)]
    }
}

/// Appends the decimal digits of `v` to `out`.
pub fn push_decimal(out: &mut String, v: u64)
    ensures
        final(out)@ == old(out)@ + dec_text(v as int),
    decreases v,
{
    if v < 10 {
        out.append(digit_str(v as u8));
    } else {
        push_decimal(out, v / 10);
        out.append(digit_str((v % 10) as u8));
        assert(final(out)@ =~= old(out)@ + dec_text(v as int));
    }
}

/// The one-character text of a decimal digit.
pub fn digit_str(d: u8) -> (r: &'static str)
    requires
        d <= 9,
    ensures
        r@ == seq![char_of_digit(d as int)],
{
    proof {
        reveal_strlit("0");
        reveal_strlit("1");
        reveal_strlit("2");
        reveal_strlit("3");
        reveal_strlit("4");
        reveal_strlit("5");
        reveal_strlit("6");
        reveal_strlit("7");
        reveal_strlit("8");
        reveal_strlit("9");
    }
    let r = match d {
        0 => "0",
        1 => "1",
        2 => "2",
        3 => "3",
        4 => "4",
        5 => "5",
        6 => "6",
        7 => "7",
        8 => "8",
        _ => "9",
    };
    assert(r@ =~= seq![char_of_digit(d as int)]);
    r
}

/// Reads the digit at position `i` of `s`, if it is one.
pub fn digit_at(s: &str, i: usize) -> (r: Option<u8>)
    requires
        i < s@.len(),
    ensures
        match r {
            Some(d) => is_digit(s@[i as int]) && d as int == digit_val(s@[i as int]) && d <= 9,
            None => !is_digit(s@[i as int]),
        },
{
    let c = s.get_char(i);
    if '0' <= c && c <= '9' {
        Some((c as u32 - 48) as u8)
    } else {
        None
    }
}

} // verus!
