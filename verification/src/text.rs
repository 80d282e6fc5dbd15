//! Text building blocks: comparison, decimal rendering and concatenation.

use vstd::prelude::*;
use vstd::string::*;
use vstd::std_specs::iter::*;

verus! {

/// `String::push` appends one character.
pub assume_specification[ String::push ](s: &mut String, c: char)
    ensures
        final(s)@ == old(s)@.push(c),
;

/// The ASCII lower-case form of a character; anything else is unchanged.
pub open spec fn lower(c: char) -> char {
    if 'A' <= c <= 'Z' {
        ((c as u32) + 32) as char
    } else {
        c
    }
}

/// The ASCII lower-case form of a text.
pub open spec fn lower_text(s: Seq<char>) -> Seq<char> {
    Seq::new(s.len(), |i: int| lower(s[i]))
}

/// The character of a decimal digit.
pub open spec fn digit(d: nat) -> char {
    ((48 + d) as u32) as char
}

/// The decimal text of a number, without leading zeros.
pub open spec fn decimal(n: nat) -> Seq<char>
    decreases n,
{
    if n < 10 {
        seq![digit(n)]
    } else {
        decimal(n / 10).push(digit(n % 10))
    }
}

/// The characters of a text.
pub fn chars_of(s: &str) -> (r: Vec<char>)
    ensures
        r@ == s@,
{
    let mut out: Vec<char> = Vec::new();
    for c in it: s.chars()
        invariant
            it.seq() == s@,
            out@ == s@.take(it.index() as int),
    {
        out.push(c);
        assert(s@.take(it.index() as int + 1) =~= s@.take(it.index() as int).push(c));
    }
    assert(s@.take(s@.len() as int) =~= s@);
    out
}

/// Whether two texts are the same.
pub fn text_eq(a: &str, b: &str) -> (r: bool)
    ensures
        r == (a@ == b@),
{
    let x = chars_of(a);
    let y = chars_of(b);
    if x.len() != y.len() {
        return false;
    }
    let mut i: usize = 0;
    while i < x.len()
        invariant
            x@ == a@,
            y@ == b@,
            x.len() == y.len(),
            i <= x.len(),
            forall|j: int| 0 <= j < i ==> x[j] == y[j],
        decreases x.len() - i,
    {
        if x[i] != y[i] {
            return false;
        }
        i += 1;
    }
    assert(a@ =~= b@);
    true
}

/// The lower-case form of one character.
pub fn lower_char(c: char) -> (r: char)
    ensures
        r == lower(c),
{
    if 'A' <= c && c <= 'Z' {
        ((c as u8) + 32) as char
    } else {
        c
    }
}

/// Whether two texts are the same up to ASCII letter case.
pub fn eq_ignore_ascii_case(a: &str, b: &str) -> (r: bool)
    ensures
        r == (lower_text(a@) == lower_text(b@)),
{
    let x = chars_of(a);
    let y = chars_of(b);
    if x.len() != y.len() {
        assert(lower_text(a@).len() != lower_text(b@).len());
        return false;
    }
    let mut i: usize = 0;
    while i < x.len()
        invariant
            x@ == a@,
            y@ == b@,
            x.len() == y.len(),
            i <= x.len(),
            forall|j: int| 0 <= j < i ==> lower(x[j]) == lower(y[j]),
        decreases x.len() - i,
    {
        if lower_char(x[i]) != lower_char(y[i]) {
            assert(lower_text(a@)[i as int] != lower_text(b@)[i as int]);
            return false;
        }
        i += 1;
    }
    assert(lower_text(a@) =~= lower_text(b@));
    true
}

/// The decimal text of a number.
pub fn decimal_text(n: u64) -> (r: String)
    ensures
        r@ == decimal(n as nat),
    decreases n,
{
    let mut s: String = if n < 10 {
        String::new()
    } else {
        decimal_text(n / 10)
    };
    let d: u8 = (n % 10) as u8;
    s.push((48 + d) as char);
    assert(s@ =~= decimal(n as nat));
    s
}

/// The text of a stretch of characters.
pub fn text_of(chars: &Vec<char>, from: usize, to: usize) -> (r: String)
    requires
        from <= to <= chars.len(),
    ensures
        r@ == chars@.subrange(from as int, to as int),
{
    let mut s = String::new();
    let mut i: usize = from;
    while i < to
        invariant
            from <= i <= to <= chars.len(),
            s@ == chars@.subrange(from as int, i as int),
        decreases to - i,
    {
        s.push(chars[i]);
        assert(chars@.subrange(from as int, i as int + 1) =~= chars@.subrange(
            from as int,
            i as int,
        ).push(chars[i as int]));
        i += 1;
    }
    s
}

/// Whether a text begins with another.
pub fn starts_with(s: &str, prefix: &str) -> (r: bool)
    ensures
        r == prefix@.is_prefix_of(s@),
{
    let x = chars_of(s);
    let y = chars_of(prefix);
    if x.len() < y.len() {
        return false;
    }
    let mut i: usize = 0;
    while i < y.len()
        invariant
            x@ == s@,
            y@ == prefix@,
            y.len() <= x.len(),
            i <= y.len(),
            forall|j: int| 0 <= j < i ==> x[j] == y[j],
        decreases y.len() - i,
    {
        if x[i] != y[i] {
            assert(!prefix@.is_prefix_of(s@)) by {
                assert(s@.subrange(0, prefix@.len() as int)[i as int] == s@[i as int]);
            }
            return false;
        }
        i += 1;
    }
    assert(prefix@ =~= s@.subrange(0, prefix@.len() as int));
    true
}

/// Whether a text holds another somewhere.
pub open spec fn holds(s: Seq<char>, part: Seq<char>) -> bool {
    exists|i: int|
        0 <= i <= s.len() - part.len() && #[trigger] s.subrange(i, i + part.len()) == part
}

/// Whether a text holds another somewhere.
pub fn contains_text(s: &str, part: &str) -> (r: bool)
    ensures
        r == holds(s@, part@),
{
    let x = chars_of(s);
    let y = chars_of(part);
    if x.len() < y.len() {
        return false;
    }
    let mut i: usize = 0;
    while i <= x.len() - y.len()
        invariant
            x@ == s@,
            y@ == part@,
            y.len() <= x.len(),
            i <= x.len() - y.len() + 1,
            forall|j: int|
                0 <= j < i ==> #[trigger] s@.subrange(j, j + part@.len() as int) != part@,
        decreases x.len() - y.len() + 1 - i,
    {
        let mut j: usize = 0;
        let mut same: bool = true;
        while j < y.len() && same
            invariant
                x@ == s@,
                y@ == part@,
                y.len() <= x.len(),
                i <= x.len() - y.len(),
                j <= y.len(),
                same ==> forall|k: int| 0 <= k < j ==> x[i + k] == y[k],
                !same ==> exists|k: int| 0 <= k < j && x[i + k] != #[trigger] y[k],
            decreases y.len() - j,
        {
            if x[i + j] != y[j] {
                same = false;
                assert(x[i + j as int] != y[j as int]);
            }
            j += 1;
        }
        let ghost here = s@.subrange(i as int, i + part@.len() as int);
        if same {
            assert(here =~= part@);
            return true;
        }
        proof {
            let k = choose|k: int| 0 <= k < j && x[i + k] != #[trigger] y[k];
            assert(here[k] == x[i + k]);
        }
        i += 1;
    }
    false
}

/// A text without the given character at its start, however often it stands there.
pub open spec fn trim_start(s: Seq<char>, c: char) -> Seq<char>
    decreases s.len(),
{
    if s.len() > 0 && s[0] == c {
        trim_start(s.drop_first(), c)
    } else {
        s
    }
}

/// A text without the given character at its start.
pub fn trim_start_char(s: &str, c: char) -> (r: String)
    ensures
        r@ == trim_start(s@, c),
{
    let chars = chars_of(s);
    let mut i: usize = 0;
    assert(s@.skip(0) =~= s@);
    while i < chars.len() && chars[i] == c
        invariant
            chars@ == s@,
            i <= chars.len(),
            trim_start(s@.skip(i as int), c) == trim_start(s@, c),
        decreases chars.len() - i,
    {
        assert(s@.skip(i as int).drop_first() =~= s@.skip(i as int + 1));
        i += 1;
    }
    let r = text_of(&chars, i, chars.len());
    assert(r@ =~= s@.skip(i as int));
    r
}

/// A text without the given character at its end, however often it stands there.
pub open spec fn trim_end(s: Seq<char>, c: char) -> Seq<char>
    decreases s.len(),
{
    if s.len() > 0 && s.last() == c {
        trim_end(s.drop_last(), c)
    } else {
        s
    }
}

/// A text without the given character at its end.
pub fn trim_end_char(s: &str, c: char) -> (r: String)
    ensures
        r@ == trim_end(s@, c),
{
    let chars = chars_of(s);
    let mut end: usize = chars.len();
    assert(s@.take(end as int) =~= s@);
    while end > 0 && chars[end - 1] == c
        invariant
            chars@ == s@,
            end <= chars.len(),
            trim_end(s@.take(end as int), c) == trim_end(s@, c),
        decreases end,
    {
        assert(s@.take(end as int).drop_last() =~= s@.take(end as int - 1));
        end -= 1;
    }
    let r = text_of(&chars, 0, end);
    assert(r@ =~= s@.take(end as int));
    r
}

/// Lower case changes the letters `A` to `Z` into the same letter thirty-two places on, and nothing
/// else.
pub proof fn lemma_lower_text(s: Seq<char>, i: int)
    requires
        0 <= i < s.len(),
    ensures
        lower_text(s).len() == s.len(),
        65 <= s[i] as u32 <= 90 ==> lower_text(s)[i] as u32 == s[i] as u32 + 32,
        !(65 <= s[i] as u32 <= 90) ==> lower_text(s)[i] == s[i],
{
}

/// The number that a row of decimal digits stands for.
pub open spec fn number_of(s: Seq<char>) -> int
    decreases s.len(),
{
    if s.len() == 0 {
        0
    } else {
        number_of(s.drop_last()) * 10 + (s.last() as u32 - 48)
    }
}

/// The decimal text of a number stands for that number, holds digits only, and begins with a zero
/// only if it is a single one. So two numbers never have the same text.
pub proof fn lemma_decimal_stands_for_number(n: nat)
    ensures
        number_of(decimal(n)) == n,
        decimal(n).len() > 0,
        forall|i: int|
            0 <= i < decimal(n).len() ==> 48 <= (#[trigger] decimal(n)[i]) as u32 && decimal(
                n,
            )[i] as u32 <= 57,
        decimal(n)[0] == '0' ==> n == 0,
    decreases n,
{
    let last = digit(n % 10);
    assert(last as u32 == 48 + n % 10);
    if n >= 10 {
        lemma_decimal_stands_for_number(n / 10);
        let rest = decimal(n / 10);
        assert(decimal(n).drop_last() =~= rest);
        assert(decimal(n).last() == last);
        assert(decimal(n)[0] == rest[0]);
    } else {
        let d = decimal(n);
        assert(d.drop_last() =~= Seq::<char>::empty());
        assert(number_of(d.drop_last()) == 0);
        assert(d.last() == last);
    }
}

/// Trimming takes away characters of the given kind, all that stand at that end, and nothing else.
pub proof fn lemma_trimmed(s: Seq<char>, c: char)
    ensures
        trim_end(s, c).len() <= s.len(),
        trim_end(s, c) == s.take(trim_end(s, c).len() as int),
        forall|i: int| trim_end(s, c).len() <= i < s.len() ==> #[trigger] s[i] == c,
        trim_end(s, c).len() > 0 ==> trim_end(s, c).last() != c,
        trim_start(s, c).len() <= s.len(),
        trim_start(s, c) == s.skip(s.len() - trim_start(s, c).len()),
        forall|i: int| 0 <= i < s.len() - trim_start(s, c).len() ==> #[trigger] s[i] == c,
        trim_start(s, c).len() > 0 ==> trim_start(s, c)[0] != c,
    decreases s.len(),
{
    if s.len() > 0 {
        let front = s.drop_last();
        let back = s.drop_first();
        lemma_trimmed(front, c);
        lemma_trimmed(back, c);
        if s.last() == c {
            let n = trim_end(front, c).len() as int;
            assert(front.take(n) =~= s.take(n));
            assert forall|i: int| n <= i < s.len() implies #[trigger] s[i] == c by {
                if i < front.len() {
                    assert(front[i] == s[i]);
                }
            }
        } else {
            assert(s.take(s.len() as int) =~= s);
        }
        if s[0] == c {
            let n = back.len() - trim_start(back, c).len();
            assert(back.skip(n) =~= s.skip(n + 1));
            assert forall|i: int| 0 <= i < n + 1 implies #[trigger] s[i] == c by {
                if i > 0 {
                    assert(back[i - 1] == s[i]);
                }
            }
        } else {
            assert(s.skip(0) =~= s);
        }
    } else {
        assert(s.take(0) =~= s);
        assert(s.skip(0) =~= s);
    }
}

/// A text holds another exactly if it can be parted around it.
pub proof fn lemma_holds_is_middle(s: Seq<char>, before: Seq<char>, part: Seq<char>, after: Seq<char>)
    ensures
        s == before + part + after ==> holds(s, part),
        holds(s, part) ==> exists|b: Seq<char>, a: Seq<char>| s == #[trigger] (b + part + a),
{
    if s == before + part + after {
        let i = before.len() as int;
        assert(s.subrange(i, i + part.len()) =~= part);
    }
    if holds(s, part) {
        let i = choose|i: int|
            0 <= i <= s.len() - part.len() && #[trigger] s.subrange(i, i + part.len()) == part;
        let b = s.take(i);
        let a = s.skip(i + part.len());
        assert(s =~= b + part + a);
    }
}

} // verus!
