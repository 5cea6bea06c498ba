//! Decimal numbers and white space in text.

use vstd::prelude::*;
use vstd::string::{StrSliceExecFns, StringExecFns};

verus! {

/// The character of a decimal digit.
pub open spec fn digit(d: nat) -> char {
    if d == 0 {
        '0'
    } else if d == 1 {
        '1'
    } else if d == 2 {
        '2'
    } else if d == 3 {
        '3'
    } else if d == 4 {
        '4'
    } else if d == 5 {
        '5'
    } else if d == 6 {
        '6'
    } else if d == 7 {
        '7'
    } else if d == 8 {
        '8'
    } else {
        '9'
    }
}

/// The decimal digits of a number, without leading zeros.
pub open spec fn decimal(n: nat) -> Seq<char>
    decreases n,
{
    if n < 10 {
        seq![digit(n)]
    } else {
        decimal(n / 10).push(digit(n % 10))
    }
}

/// The decimal digits of a number, with leading zeros up to `width` digits.
pub open spec fn padded(n: nat, width: nat) -> Seq<char>
    decreases width,
{
    if width <= 1 {
        decimal(n)
    } else {
        padded(n / 10, (width - 1) as nat).push(digit(n % 10))
    }
}

fn digit_text(d: u64) -> (r: &'static str)
    requires
        d < 10,
    ensures
        r@ == seq![digit(d as nat)],
{
    proof {
        reveal_strlit("0");
        reveal_strlit("1");
        reveal_strlit("2");
        reveal_strlit("3");
        reveal_strlit("4");
        reveal_strlit("5");
        reveal_strlit("6");
        reveal_strlit("7");
        reveal_strlit("8");
        reveal_strlit("9");
    }
    let r: &'static str = if d == 0 {
        "0"
    } else if d == 1 {
        "1"
    } else if d == 2 {
        "2"
    } else if d == 3 {
        "3"
    } else if d == 4 {
        "4"
    } else if d == 5 {
        "5"
    } else if d == 6 {
        "6"
    } else if d == 7 {
        "7"
    } else if d == 8 {
        "8"
    } else {
        "9"
    };
    assert(r@ =~= seq![digit(d as nat)]);
    r
}

/// Add the decimal digits of a number to a text.
pub fn push_decimal(text: &mut String, n: u64)
    ensures
        final(text)@ == old(text)@ + decimal(n as nat),
    decreases n,
{
    if n >= 10 {
        push_decimal(text, n / 10);
    }
    text.append(digit_text(n % 10));
    assert(text@ =~= old(text)@ + decimal(n as nat));
}

/// Add a number to a text, with leading zeros up to `width` digits.
pub fn push_padded(text: &mut String, n: u64, width: u64)
    ensures
        final(text)@ == old(text)@ + padded(n as nat, width as nat),
    decreases width,
{
    if width <= 1 {
        push_decimal(text, n);
    } else {
        push_padded(text, n / 10, width - 1);
        text.append(digit_text(n % 10));
        assert(text@ =~= old(text)@ + padded(n as nat, width as nat));
    }
}

/// Different numbers have different digits.
pub proof fn lemma_decimal_injective(a: nat, b: nat)
    requires
        decimal(a) == decimal(b),
    ensures
        a == b,
    decreases a,
{
    assert(decimal(a).last() == digit(a % 10));
    assert(decimal(b).last() == digit(b % 10));
    if a >= 10 && b >= 10 {
        assert(decimal(a).drop_last() =~= decimal(a / 10));
        assert(decimal(b).drop_last() =~= decimal(b / 10));
        lemma_decimal_injective(a / 10, b / 10);
    } else if a >= 10 {
        assert(decimal(a / 10).len() > 0);
    } else if b >= 10 {
        assert(decimal(b / 10).len() > 0);
    }
}

/// The parts of a text between separators.
pub open spec fn split_on(s: Seq<char>, sep: char) -> Seq<Seq<char>>
    decreases s.len(),
{
    if s.len() == 0 {
        seq![Seq::empty()]
    } else {
        let parts = split_on(s.drop_last(), sep);
        if s.last() == sep {
            parts.push(Seq::empty())
        } else {
            parts.drop_last().push(parts.last().push(s.last()))
        }
    }
}

/// The texts that strings hold.
pub open spec fn texts(v: Seq<String>) -> Seq<Seq<char>> {
    Seq::new(v.len(), |i: int| v[i]@)
}

proof fn lemma_split_nonempty(s: Seq<char>, sep: char)
    ensures
        split_on(s, sep).len() > 0,
    decreases s.len(),
{
    if s.len() > 0 {
        lemma_split_nonempty(s.drop_last(), sep);
    }
}

/// The parts of a text between separators.
pub fn split_text(s: &str, sep: char) -> (r: Vec<String>)
    ensures
        texts(r@) == split_on(s@, sep),
        r@.len() > 0,
{
    let n: usize = s.unicode_len();
    let mut r: Vec<String> = Vec::new();
    let mut start: usize = 0;
    let mut i: usize = 0;
    proof {
        assert(s@.subrange(0, 0) =~= Seq::empty());
        assert(texts(r@).push(Seq::empty()) =~= seq![Seq::empty()]);
    }
    while i < n
        invariant
            n == s@.len(),
            start <= i <= n,
            split_on(s@.subrange(0, i as int), sep) == texts(r@).push(
                s@.subrange(start as int, i as int),
            ),
        decreases n - i,
    {
        let ghost before = s@.subrange(0, i as int);
        let ghost after = s@.subrange(0, i + 1);
        assert(after.drop_last() =~= before);
        let ghost was = texts(r@);
        let ghost part = s@.subrange(start as int, i as int);
        if s.get_char(i) == sep {
            r.push(s.substring_char(start, i).to_owned());
            start = i + 1;
            proof {
                assert(texts(r@) =~= was.push(part));
                assert(s@.subrange(start as int, i + 1) =~= Seq::empty());
                assert(split_on(after, sep) =~= texts(r@).push(s@.subrange(start as int, i + 1)));
            }
        } else {
            proof {
                assert(was.push(part).drop_last() =~= was);
                assert(part.push(s@[i as int]) =~= s@.subrange(start as int, i + 1));
                assert(split_on(after, sep) =~= was.push(s@.subrange(start as int, i + 1)));
            }
        }
        i = i + 1;
    }
    let ghost was = texts(r@);
    r.push(s.substring_char(start, n).to_owned());
    proof {
        assert(s@.subrange(0, n as int) =~= s@);
        assert(texts(r@) =~= was.push(s@.subrange(start as int, n as int)));
    }
    r
}

/// Splitting what stands before a separator, a separator, and a part without one.
pub proof fn lemma_split_join(a: Seq<char>, b: Seq<char>, sep: char)
    requires
        !b.contains(sep),
    ensures
        split_on(a.push(sep) + b, sep) == split_on(a, sep).push(b),
    decreases b.len(),
{
    let s = a.push(sep) + b;
    lemma_split_nonempty(a, sep);
    if b.len() == 0 {
        assert(s =~= a.push(sep));
        assert(s.drop_last() =~= a);
        assert(b =~= Seq::empty());
    } else {
        let c = b.drop_last();
        assert(!c.contains(sep)) by {
            if c.contains(sep) {
                let i = choose|i: int| 0 <= i < c.len() && c[i] == sep;
                assert(b[i] == sep);
            }
        }
        lemma_split_join(a, c, sep);
        assert(s.drop_last() =~= a.push(sep) + c);
        assert(b[b.len() - 1] == b.last());
        assert(s.last() == b.last());
        let parts = split_on(a, sep);
        assert(parts.push(c).drop_last() =~= parts);
        assert(c.push(b.last()) =~= b);
    }
}

/// A text without separators is one part.
pub proof fn lemma_split_single(a: Seq<char>, sep: char)
    requires
        !a.contains(sep),
    ensures
        split_on(a, sep) == seq![a],
    decreases a.len(),
{
    if a.len() == 0 {
        assert(a =~= Seq::empty());
    } else {
        let c = a.drop_last();
        assert(!c.contains(sep)) by {
            if c.contains(sep) {
                let i = choose|i: int| 0 <= i < c.len() && c[i] == sep;
                assert(a[i] == sep);
            }
        }
        lemma_split_single(c, sep);
        assert(a[a.len() - 1] == a.last());
        assert(seq![c].drop_last() =~= Seq::<Seq<char>>::empty());
        assert(c.push(a.last()) =~= a);
        assert(split_on(a, sep) =~= seq![a]);
    }
}

/// White space, as Unicode has it.
pub open spec fn is_white(c: char) -> bool {
    ||| '\u{9}' <= c <= '\u{d}'
    ||| c == ' '
    ||| c == '\u{85}'
    ||| c == '\u{a0}'
    ||| c == '\u{1680}'
    ||| '\u{2000}' <= c <= '\u{200a}'
    ||| c == '\u{2028}'
    ||| c == '\u{2029}'
    ||| c == '\u{202f}'
    ||| c == '\u{205f}'
    ||| c == '\u{3000}'
}

/// Whether a character is white space.
pub fn white(c: char) -> (r: bool)
    ensures
        r == is_white(c),
{
    ('\u{9}' <= c && c <= '\u{d}') || c == ' ' || c == '\u{85}' || c == '\u{a0}' || c == '\u{1680}' || (
    '\u{2000}' <= c && c <= '\u{200a}') || c == '\u{2028}' || c == '\u{2029}' || c == '\u{202f}' || c
        == '\u{205f}' || c == '\u{3000}'
}

/// The text without white space at its start.
pub open spec fn trim_start(s: Seq<char>) -> Seq<char>
    decreases s.len(),
{
    if s.len() > 0 && is_white(s[0]) {
        trim_start(s.subrange(1, s.len() as int))
    } else {
        s
    }
}

/// The text without white space at its end.
pub open spec fn trim_end(s: Seq<char>) -> Seq<char>
    decreases s.len(),
{
    if s.len() > 0 && is_white(s.last()) {
        trim_end(s.drop_last())
    } else {
        s
    }
}

/// The text without white space at either end.
pub open spec fn trimmed(s: Seq<char>) -> Seq<char> {
    trim_end(trim_start(s))
}

/// The text without white space at either end.
pub fn trim_text(s: &str) -> (r: String)
    ensures
        r@ == trimmed(s@),
{
    let n: usize = s.unicode_len();
    let mut lo: usize = 0;
    assert(s@.subrange(0, n as int) =~= s@);
    while lo < n && white(s.get_char(lo))
        invariant
            n == s@.len(),
            lo <= n,
            trim_start(s@.subrange(lo as int, n as int)) == trim_start(s@),
        decreases n - lo,
    {
        assert(s@.subrange(lo as int, n as int).subrange(1, n - lo) =~= s@.subrange(
            lo + 1,
            n as int,
        ));
        lo = lo + 1;
    }
    let ghost rest = s@.subrange(lo as int, n as int);
    assert(trim_start(rest) == rest);
    let mut hi: usize = n;
    while hi > lo && white(s.get_char(hi - 1))
        invariant
            n == s@.len(),
            lo <= hi <= n,
            trim_end(s@.subrange(lo as int, hi as int)) == trim_end(rest),
        decreases hi - lo,
    {
        assert(s@.subrange(lo as int, hi as int).drop_last() =~= s@.subrange(lo as int, hi - 1));
        hi = hi - 1;
    }
    s.substring_char(lo, hi).to_owned()
}

/// Whether two texts are the same.
pub fn same_text(a: &str, b: &str) -> (r: bool)
    ensures
        r == (a@ == b@),
{
    let n: usize = a.unicode_len();
    if n != b.unicode_len() {
        return false;
    }
    let mut i: usize = 0;
    while i < n
        invariant
            i <= n,
            n == a@.len(),
            n == b@.len(),
            forall|j: int| 0 <= j < i ==> #[trigger] a@[j] == b@[j],
        decreases n - i,
    {
        if a.get_char(i) != b.get_char(i) {
            return false;
        }
        i = i + 1;
    }
    assert(a@ =~= b@);
    true
}

/// What a run of digits says, read from left to right.
pub open spec fn reads_as(s: Seq<char>) -> int
    decreases s.len(),
{
    if s.len() == 0 {
        0
    } else {
        reads_as(s.drop_last()) * 10 + (s.last() as int - '0' as int)
    }
}

/// Only decimal digits.
pub open spec fn all_digits(s: Seq<char>) -> bool {
    forall|i: int| 0 <= i < s.len() ==> '0' <= #[trigger] s[i] <= '9'
}

/// A number is written in decimal digits that read as the number, without a leading zero.
pub proof fn law_decimal_reads_as_the_number(n: nat)
    ensures
        reads_as(decimal(n)) == n,
        all_digits(decimal(n)),
        decimal(n).len() > 0,
        n > 0 ==> decimal(n)[0] != '0',
        n == 0 ==> decimal(n).len() == 1,
    decreases n,
{
    if n < 10 {
        let s = decimal(n);
        assert(s.drop_last() =~= Seq::empty());
        assert(reads_as(s.drop_last()) == 0);
    } else {
        law_decimal_reads_as_the_number(n / 10);
        let before = decimal(n / 10);
        assert(before.push(digit(n % 10)).drop_last() =~= before);
    }
}

/// A padded number has at least as many digits as asked for, and as many if they are enough;
/// the digits read as the number.
pub proof fn law_padded_reads_as_the_number(n: nat, width: nat)
    ensures
        reads_as(padded(n, width)) == n,
        all_digits(padded(n, width)),
        padded(n, width).len() >= width,
        padded(n, width).len() >= 1,
        padded(n, width).len() > width && width > 0 ==> padded(n, width)[0] != '0',
    decreases width,
{
    if width <= 1 {
        law_decimal_reads_as_the_number(n);
    } else {
        law_padded_reads_as_the_number(n / 10, (width - 1) as nat);
        let before = padded(n / 10, (width - 1) as nat);
        assert(before.push(digit(n % 10)).drop_last() =~= before);
    }
}

/// Trimming takes white space from both ends and nothing else: what is left stood in one piece
/// with white space before and after it, and neither begins nor ends with white space.
pub proof fn law_trimming_takes_white_space(s: Seq<char>)
    ensures
        exists|i: int, j: int|
            {
                &&& 0 <= i <= j <= s.len()
                &&& trimmed(s) == #[trigger] s.subrange(i, j)
                &&& forall|k: int| 0 <= k < i || j <= k < s.len() ==> is_white(#[trigger] s[k])
            },
        trimmed(s).len() > 0 ==> !is_white(trimmed(s)[0]) && !is_white(trimmed(s).last()),
{
    lemma_trim_start(s);
    let t = trim_start(s);
    lemma_trim_end(t);
    let i = choose|i: int|
        {
            &&& 0 <= i <= s.len()
            &&& t == #[trigger] s.subrange(i, s.len() as int)
            &&& forall|k: int| 0 <= k < i ==> is_white(#[trigger] s[k])
        };
    let j = choose|j: int|
        {
            &&& 0 <= j <= t.len()
            &&& trim_end(t) == #[trigger] t.subrange(0, j)
            &&& forall|k: int| j <= k < t.len() ==> is_white(#[trigger] t[k])
        };
    assert(trimmed(s) =~= s.subrange(i, i + j));
    assert forall|k: int| 0 <= k < i || i + j <= k < s.len() implies is_white(#[trigger] s[k]) by {
        if k >= i {
            assert(t[k - i] == s[k]);
        }
    }
    if trimmed(s).len() > 0 {
        assert(trimmed(s)[0] == t[0]);
    }
}

proof fn lemma_trim_start(s: Seq<char>)
    ensures
        exists|i: int|
            {
                &&& 0 <= i <= s.len()
                &&& trim_start(s) == #[trigger] s.subrange(i, s.len() as int)
                &&& forall|k: int| 0 <= k < i ==> is_white(#[trigger] s[k])
            },
        trim_start(s).len() > 0 ==> !is_white(trim_start(s)[0]),
    decreases s.len(),
{
    if s.len() > 0 && is_white(s[0]) {
        let rest = s.subrange(1, s.len() as int);
        lemma_trim_start(rest);
        let i = choose|i: int|
            {
                &&& 0 <= i <= rest.len()
                &&& trim_start(rest) == #[trigger] rest.subrange(i, rest.len() as int)
                &&& forall|k: int| 0 <= k < i ==> is_white(#[trigger] rest[k])
            };
        assert(rest.subrange(i, rest.len() as int) =~= s.subrange(i + 1, s.len() as int));
        assert forall|k: int| 0 <= k < i + 1 implies is_white(#[trigger] s[k]) by {
            if k > 0 {
                assert(rest[k - 1] == s[k]);
            }
        }
    } else {
        assert(s.subrange(0, s.len() as int) =~= s);
    }
}

proof fn lemma_trim_end(s: Seq<char>)
    ensures
        exists|j: int|
            {
                &&& 0 <= j <= s.len()
                &&& trim_end(s) == #[trigger] s.subrange(0, j)
                &&& forall|k: int| j <= k < s.len() ==> is_white(#[trigger] s[k])
            },
        trim_end(s).len() > 0 ==> !is_white(trim_end(s).last()),
    decreases s.len(),
{
    if s.len() > 0 && is_white(s.last()) {
        let rest = s.drop_last();
        lemma_trim_end(rest);
        let j = choose|j: int|
            {
                &&& 0 <= j <= rest.len()
                &&& trim_end(rest) == #[trigger] rest.subrange(0, j)
                &&& forall|k: int| j <= k < rest.len() ==> is_white(#[trigger] rest[k])
            };
        assert(rest.subrange(0, j) =~= s.subrange(0, j));
        assert forall|k: int| j <= k < s.len() implies is_white(#[trigger] s[k]) by {
            if k < s.len() - 1 {
                assert(rest[k] == s[k]);
            }
        }
    } else {
        assert(s.subrange(0, s.len() as int) =~= s);
    }
}

/// Parts with the separator between them.
pub open spec fn with_between(parts: Seq<Seq<char>>, sep: char) -> Seq<char>
    decreases parts.len(),
{
    if parts.len() == 0 {
        Seq::empty()
    } else if parts.len() == 1 {
        parts[0]
    } else {
        with_between(parts.drop_last(), sep).push(sep) + parts.last()
    }
}

/// Splitting leaves the separators out and nothing else: no part has one, and with one between
/// every two parts the text is there again.
pub proof fn law_split_leaves_out_separators(s: Seq<char>, sep: char)
    ensures
        split_on(s, sep).len() > 0,
        forall|i: int| 0 <= i < split_on(s, sep).len() ==> !(#[trigger] split_on(s, sep)[i]).contains(sep),
        with_between(split_on(s, sep), sep) == s,
    decreases s.len(),
{
    let parts = split_on(s, sep);
    if s.len() == 0 {
        assert(with_between(parts, sep) =~= s);
    } else {
        let before = split_on(s.drop_last(), sep);
        law_split_leaves_out_separators(s.drop_last(), sep);
        assert(s.drop_last().push(s.last()) =~= s);
        if s.last() == sep {
            assert(parts.drop_last() =~= before);
            assert(with_between(parts, sep) =~= s.drop_last().push(sep));
        } else {
            let last = before.last().push(s.last());
            assert(!last.contains(sep)) by {
                if last.contains(sep) {
                    let k = choose|k: int| 0 <= k < last.len() && last[k] == sep;
                    assert(before.last()[k] == sep);
                    assert(!before[before.len() - 1].contains(sep));
                }
            }
            assert(parts.drop_last() =~= before.drop_last());
            assert forall|i: int| 0 <= i < parts.len() implies !(#[trigger] parts[i]).contains(sep) by {
                if i < before.len() - 1 {
                    assert(parts[i] == before[i]);
                }
            }
            if before.len() == 1 {
                assert(parts.len() == 1);
                assert(with_between(parts, sep) =~= s);
            } else {
                assert(with_between(parts, sep) =~= with_between(before, sep).push(s.last()));
            }
        }
    }
}

/// Up to its width a number is padded to exactly that width.
pub proof fn law_padded_is_as_long(n: nat, width: nat)
    requires
        width <= 4,
        width == 1 ==> n < 10,
        width == 2 ==> n < 100,
        width == 3 ==> n < 1000,
        width == 4 ==> n < 10000,
        width > 0,
    ensures
        padded(n, width).len() == width,
    decreases width,
{
    if width > 1 {
        law_padded_is_as_long(n / 10, (width - 1) as nat);
    }
}

} // verus!
