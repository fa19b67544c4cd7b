//! Text helpers: decimal numbers, white space and repeated prefixes.
use vstd::prelude::*;
use vstd::string::*;

verus! {

/// The digits of a number, most significant first.
pub open spec fn decimal_text(n: nat) -> Seq<char>
    decreases n,
{
    let leading = if n < 10 {
        Seq::empty()
    } else {
        decimal_text(n / 10)
    };
    leading.push((48 + n % 10) as char)
}

/// The digit of a number below ten.
fn digit(d: usize) -> (r: &'static str)
    requires
        d < 10,
    ensures
        r@ == seq![(48 + d) as char],
{
    proof {
        reveal_strlit("0");
        reveal_strlit("1");
        reveal_strlit("2");
        reveal_strlit("3");
        reveal_strlit("4");
        reveal_strlit("5");
        reveal_strlit("6");
        reveal_strlit("7");
        reveal_strlit("8");
        reveal_strlit("9");
    }
    match d {
        0 => "0",
        1 => "1",
        2 => "2",
        3 => "3",
        4 => "4",
        5 => "5",
        6 => "6",
        7 => "7",
        8 => "8",
        _ => "9",
    }
}

/// The digits of `n`, most significant first.
pub fn decimal(n: usize) -> (r: String)
    ensures
        r@ == decimal_text(n as nat),
    decreases n,
{
    let mut text = if n < 10 {
        String::new()
    } else {
        decimal(n / 10)
    };
    text.append(digit(n % 10));
    text
}

/// Whether a character has the Unicode property `White_Space`.
pub open spec fn is_white_space(c: char) -> bool {
    ||| '\u{9}' <= c <= '\u{D}'
    ||| c == '\u{20}'
    ||| c == '\u{85}'
    ||| c == '\u{A0}'
    ||| c == '\u{1680}'
    ||| '\u{2000}' <= c <= '\u{200A}'
    ||| c == '\u{2028}'
    ||| c == '\u{2029}'
    ||| c == '\u{202F}'
    ||| c == '\u{205F}'
    ||| c == '\u{3000}'
}

/// Whether `c` has the Unicode property `White_Space`.
pub fn white_space(c: char) -> (r: bool)
    ensures
        r == is_white_space(c),
{
    ('\u{9}' <= c && c <= '\u{D}') || c == '\u{20}' || c == '\u{85}' || c == '\u{A0}' || c
        == '\u{1680}' || ('\u{2000}' <= c && c <= '\u{200A}') || c == '\u{2028}' || c == '\u{2029}'
        || c == '\u{202F}' || c == '\u{205F}' || c == '\u{3000}'
}

/// A text without the white space in front of it.
pub open spec fn trim_start(s: Seq<char>) -> Seq<char>
    decreases s.len(),
{
    if s.len() > 0 && is_white_space(s.first()) {
        trim_start(s.drop_first())
    } else {
        s
    }
}

/// A text without the white space behind it.
pub open spec fn trim_end(s: Seq<char>) -> Seq<char>
    decreases s.len(),
{
    if s.len() > 0 && is_white_space(s.last()) {
        trim_end(s.drop_last())
    } else {
        s
    }
}

/// A text without the white space around it.
pub open spec fn trim(s: Seq<char>) -> Seq<char> {
    trim_end(trim_start(s))
}

/// A text without the copies of `prefix` that it starts with.
pub open spec fn strip_prefixes(s: Seq<char>, prefix: Seq<char>) -> Seq<char>
    decreases s.len(),
{
    if 0 < prefix.len() <= s.len() && s.take(prefix.len() as int) == prefix {
        strip_prefixes(s.skip(prefix.len() as int), prefix)
    } else {
        s
    }
}

/// The characters of `s`.
pub fn chars_of(s: &str) -> (r: Vec<char>)
    ensures
        r@ == s@,
{
    let mut r: Vec<char> = Vec::new();
    for c in it: s.chars()
        invariant
            r@.len() == it.index(),
            it.seq() == s@,
            forall|i: int| 0 <= i < r@.len() ==> r@[i] == s@[i],
    {
        r.push(c);
    }
    assert(r@ == s@);
    r
}

/// `s` without the copies of `prefix` that it starts with and, after that, without the white
/// space around it.
pub fn strip_and_trim(s: &str, prefix: &str) -> (r: String)
    ensures
        r@ == trim(strip_prefixes(s@, prefix@)),
{
    let chars = chars_of(s);
    let pre = chars_of(prefix);
    let mut start: usize = 0;
    let ghost whole = s@;
    assert(whole.skip(0) == whole);
    while pre.len() > 0 && starts_at(&chars, start, &pre)
        invariant
            chars@ == whole,
            pre@ == prefix@,
            start <= chars@.len(),
            strip_prefixes(whole.skip(start as int), prefix@) == strip_prefixes(whole, prefix@),
        decreases chars@.len() - start,
    {
        proof {
            let rest = whole.skip(start as int);
            assert(rest.take(pre@.len() as int) == prefix@);
            assert(rest.skip(pre@.len() as int) == whole.skip(start + pre@.len()));
            assert(start + pre.len() <= chars.len());
        }
        start += pre.len();
    }
    proof {
        let rest = whole.skip(start as int);
        if 0 < prefix@.len() <= rest.len() && rest.take(prefix@.len() as int) == prefix@ {
            assert(whole.subrange(start as int, start + prefix@.len()) == rest.take(
                prefix@.len() as int,
            ));
        }
    }
    let ghost stripped = whole.skip(start as int);
    while start < chars.len() && white_space(chars[start])
        invariant
            chars@ == whole,
            start <= chars@.len(),
            trim_start(whole.skip(start as int)) == trim_start(stripped),
        decreases chars@.len() - start,
    {
        proof {
            let rest = whole.skip(start as int);
            assert(rest.drop_first() == whole.skip(start + 1));
        }
        start += 1;
    }
    let ghost begun = whole.skip(start as int);
    let mut end: usize = chars.len();
    assert(whole.subrange(start as int, end as int) == begun);
    while start < end && white_space(chars[end - 1])
        invariant
            chars@ == whole,
            start <= end <= chars@.len(),
            trim_end(whole.subrange(start as int, end as int)) == trim_end(begun),
        decreases end - start,
    {
        proof {
            let rest = whole.subrange(start as int, end as int);
            assert(rest.drop_last() == whole.subrange(start as int, end - 1));
        }
        end -= 1;
    }
    s.substring_char(start, end).to_owned()
}

/// Whether `part` stands in `chars` at position `at`.
fn starts_at(chars: &Vec<char>, at: usize, part: &Vec<char>) -> (r: bool)
    requires
        at <= chars@.len(),
    ensures
        r == (at + part@.len() <= chars@.len() && chars@.subrange(at as int, at + part@.len())
            == part@),
{
    if chars.len() - at < part.len() {
        return false;
    }
    let mut i: usize = 0;
    while i < part.len()
        invariant
            i <= part@.len(),
            at + part.len() <= chars.len(),
            forall|j: int| 0 <= j < i ==> chars@[at + j] == part@[j],
        decreases part@.len() - i,
    {
        if chars[at + i] != part[i] {
            assert(chars@.subrange(at as int, at + part@.len())[i as int] != part@[i as int]);
            return false;
        }
        i += 1;
    }
    assert(chars@.subrange(at as int, at + part@.len()) == part@);
    true
}

/// Trimming leaves no white space at either end.
pub proof fn law_trim_leaves_no_outer_space(s: Seq<char>)
    ensures
        trim(s).len() > 0 ==> !is_white_space(trim(s).first()) && !is_white_space(trim(s).last()),
{
    lemma_trim_start(s);
    lemma_trim_end(trim_start(s));
}

/// Trimming takes away white space only: what is left is a part of the text, and all that stood
/// in front of it and behind it is white space.
pub proof fn law_trim_takes_only_space(s: Seq<char>) -> (parts: (int, int))
    ensures
        0 <= parts.0 <= parts.1 <= s.len(),
        trim(s) == s.subrange(parts.0, parts.1),
        forall|i: int| 0 <= i < parts.0 ==> is_white_space(s[i]),
        forall|i: int| parts.1 <= i < s.len() ==> is_white_space(s[i]),
{
    let from = lemma_trim_start(s);
    let to = lemma_trim_end(trim_start(s));
    assert(trim(s) == s.subrange(from, from + to));
    assert forall|i: int| from + to <= i < s.len() implies is_white_space(s[i]) by {
        assert(trim_start(s)[i - from] == s[i]);
    }
    (from, from + to)
}

proof fn lemma_trim_start(s: Seq<char>) -> (from: int)
    ensures
        0 <= from <= s.len(),
        trim_start(s) == s.skip(from),
        forall|i: int| 0 <= i < from ==> is_white_space(s[i]),
        from < s.len() ==> !is_white_space(s[from]),
    decreases s.len(),
{
    if s.len() > 0 && is_white_space(s.first()) {
        let rest = s.drop_first();
        let from = lemma_trim_start(rest);
        assert(rest.skip(from) == s.skip(from + 1));
        assert forall|i: int| 0 <= i < from + 1 implies is_white_space(s[i]) by {
            if i > 0 {
                assert(rest[i - 1] == s[i]);
            }
        }
        from + 1
    } else {
        assert(s.skip(0) == s);
        0
    }
}

proof fn lemma_trim_end(s: Seq<char>) -> (to: int)
    ensures
        0 <= to <= s.len(),
        trim_end(s) == s.take(to),
        forall|i: int| to <= i < s.len() ==> is_white_space(s[i]),
        to > 0 ==> !is_white_space(s[to - 1]),
        to > 0 ==> trim_end(s).first() == s.first(),
    decreases s.len(),
{
    if s.len() > 0 && is_white_space(s.last()) {
        let rest = s.drop_last();
        let to = lemma_trim_end(rest);
        assert(rest.take(to) == s.take(to));
        assert forall|i: int| to <= i < s.len() implies is_white_space(s[i]) by {
            if i < rest.len() {
                assert(rest[i] == s[i]);
            }
        }
        to
    } else {
        assert(s.take(s.len() as int) == s);
        s.len() as int
    }
}

/// Stripping a prefix leaves a text that does not start with it.
pub proof fn law_strip_prefixes_leaves_none(s: Seq<char>, prefix: Seq<char>)
    requires
        prefix.len() > 0,
    ensures
        !prefix.is_prefix_of(strip_prefixes(s, prefix)),
    decreases s.len(),
{
    if prefix.len() <= s.len() && s.take(prefix.len() as int) == prefix {
        law_strip_prefixes_leaves_none(s.skip(prefix.len() as int), prefix);
    } else if prefix.is_prefix_of(s) {
        assert(s.take(prefix.len() as int) == prefix);
    }
}

/// `n` copies of a text, one behind the other.
pub open spec fn copies(text: Seq<char>, n: nat) -> Seq<char>
    decreases n,
{
    if n == 0 {
        Seq::empty()
    } else {
        text + copies(text, (n - 1) as nat)
    }
}

/// Stripping goes through each copy of the prefix and changes nothing else: a text with one more
/// copy in front of it comes to the same, and a text that does not start with the prefix stays as
/// it is, as does every text where the prefix is empty.
pub proof fn law_strip_prefixes_goes_through_each_copy(s: Seq<char>, prefix: Seq<char>)
    ensures
        prefix.len() > 0 ==> strip_prefixes(prefix + s, prefix) == strip_prefixes(s, prefix),
        !prefix.is_prefix_of(s) ==> strip_prefixes(s, prefix) == s,
        prefix.len() == 0 ==> strip_prefixes(s, prefix) == s,
{
    assert((prefix + s).take(prefix.len() as int) == prefix);
    assert((prefix + s).skip(prefix.len() as int) == s);
    if prefix.len() <= s.len() && s.take(prefix.len() as int) == prefix {
        assert(prefix.is_prefix_of(s));
    }
}

/// Stripping takes away copies of the prefix at the front and nothing else: the text is some
/// copies of the prefix, followed by all of what is left.
pub proof fn law_strip_prefixes_takes_copies_only(s: Seq<char>, prefix: Seq<char>) -> (n: nat)
    ensures
        s == copies(prefix, n) + strip_prefixes(s, prefix),
        s.len() == n * prefix.len() + strip_prefixes(s, prefix).len(),
        strip_prefixes(s, prefix) == s.skip(s.len() - strip_prefixes(s, prefix).len()),
    decreases s.len(),
{
    if 0 < prefix.len() <= s.len() && s.take(prefix.len() as int) == prefix {
        let rest = s.skip(prefix.len() as int);
        let n = law_strip_prefixes_takes_copies_only(rest, prefix);
        let left = strip_prefixes(s, prefix);
        assert(left == strip_prefixes(rest, prefix));
        assert(s == prefix + rest);
        assert(copies(prefix, n + 1) == prefix + copies(prefix, n));
        assert(prefix + (copies(prefix, n) + left) == copies(prefix, n + 1) + left);
        assert((n + 1) * prefix.len() == n * prefix.len() + prefix.len()) by (nonlinear_arith);
        assert(rest.skip(rest.len() - left.len()) == s.skip(s.len() - left.len()));
        n + 1
    } else {
        assert(copies(prefix, 0) + s == s);
        assert(s.skip(0) == s);
        0
    }
}

/// The text is found under what surrounds it: where a text stands behind copies of the prefix
/// and between white space, stripping and trimming give that text, whole.
pub proof fn law_text_is_found_under_prefixes_and_space(
    prefix: Seq<char>,
    n: nat,
    front: Seq<char>,
    text: Seq<char>,
    back: Seq<char>,
)
    requires
        prefix.len() > 0,
        forall|i: int| 0 <= i < front.len() ==> is_white_space(#[trigger] front[i]),
        forall|i: int| 0 <= i < back.len() ==> is_white_space(#[trigger] back[i]),
        text.len() > 0 ==> !is_white_space(text.first()) && !is_white_space(text.last()),
        !prefix.is_prefix_of(front + text + back),
    ensures
        trim(strip_prefixes(copies(prefix, n) + (front + text + back), prefix)) == text,
    decreases n,
{
    let s = front + text + back;
    if n > 0 {
        let fewer = copies(prefix, (n - 1) as nat) + s;
        law_text_is_found_under_prefixes_and_space(prefix, (n - 1) as nat, front, text, back);
        assert(copies(prefix, n) + s == prefix + fewer);
        law_strip_prefixes_goes_through_each_copy(fewer, prefix);
    } else {
        assert(copies(prefix, 0) + s == s);
        law_strip_prefixes_goes_through_each_copy(s, prefix);
        lemma_trim_is(front, text, back);
    }
}

proof fn lemma_trim_is(front: Seq<char>, text: Seq<char>, back: Seq<char>)
    requires
        forall|i: int| 0 <= i < front.len() ==> is_white_space(#[trigger] front[i]),
        forall|i: int| 0 <= i < back.len() ==> is_white_space(#[trigger] back[i]),
        text.len() > 0 ==> !is_white_space(text.first()) && !is_white_space(text.last()),
    ensures
        trim(front + text + back) == text,
{
    let s = front + text + back;
    let from = lemma_trim_start(s);
    let begun = trim_start(s);
    let to = lemma_trim_end(begun);
    assert forall|i: int| 0 <= i < front.len() implies is_white_space(s[i]) by {
        assert(s[i] == front[i]);
    }
    assert forall|i: int| front.len() + text.len() <= i < s.len() implies is_white_space(s[i]) by {
        assert(s[i] == back[i - front.len() - text.len()]);
    }
    if text.len() > 0 {
        let (a, b) = (front.len() as int, front.len() + text.len());
        assert(s[a] == text.first() && s[b - 1] == text.last());
        assert(from == a);
        assert(begun[text.len() - 1] == s[b - 1]);
        assert(to >= text.len());
        if to > text.len() {
            assert(begun[to - 1] == s[from + to - 1]);
        }
        assert(begun.take(to) == text);
    } else {
        if from < s.len() {
            assert(is_white_space(s[from]));
        }
        assert(begun.take(to) == text);
    }
}

/// The digits of a number are those of its tenth part and its last digit behind them, and a
/// number below ten has one digit.
pub proof fn law_decimal_text_has_the_last_digit_behind_the_others(n: nat, d: nat)
    requires
        d < 10,
    ensures
        decimal_text(d) == seq![(('0' as int) + d) as char],
        n > 0 ==> decimal_text(10 * n + d) == decimal_text(n) + decimal_text(d),
{
    let seq_of = Seq::<char>::empty().push((48 + d % 10) as char);
    assert(decimal_text(d) == seq_of);
    assert(seq_of == seq![(('0' as int) + d) as char]);
    if n > 0 {
        let m = 10 * n + d;
        assert(m / 10 == n && m % 10 == d);
        assert(decimal_text(m) == decimal_text(n).push((48 + d) as char));
        assert(decimal_text(n).push((48 + d) as char) == decimal_text(n) + decimal_text(d));
    }
}

/// White space is tab, line feed, line tabulation, form feed, carriage return, space, next line,
/// no-break space, the ogham space mark, the quads and the spaces of general punctuation, the line
/// and paragraph separators, the narrow no-break space, the medium mathematical space and the
/// ideographic space, and nothing else.
pub proof fn law_white_space_is_that_of_unicode(c: char)
    ensures
        is_white_space(c) <==> seq![
            0x09u32, 0x0A, 0x0B, 0x0C, 0x0D, 0x20, 0x85, 0xA0, 0x1680, 0x2000, 0x2001, 0x2002,
            0x2003, 0x2004, 0x2005, 0x2006, 0x2007, 0x2008, 0x2009, 0x200A, 0x2028, 0x2029, 0x202F,
            0x205F, 0x3000,
        ].contains(c as u32),
{
    let all = seq![
        0x09u32, 0x0A, 0x0B, 0x0C, 0x0D, 0x20, 0x85, 0xA0, 0x1680, 0x2000, 0x2001, 0x2002,
        0x2003, 0x2004, 0x2005, 0x2006, 0x2007, 0x2008, 0x2009, 0x200A, 0x2028, 0x2029, 0x202F,
        0x205F, 0x3000,
    ];
    if is_white_space(c) {
        let i: int = if c <= '\u{D}' {
            c as int - 0x09
        } else if c == '\u{20}' {
            5
        } else if c == '\u{85}' {
            6
        } else if c == '\u{A0}' {
            7
        } else if c == '\u{1680}' {
            8
        } else if c <= '\u{200A}' {
            c as int - 0x2000 + 9
        } else if c <= '\u{2029}' {
            c as int - 0x2028 + 20
        } else if c == '\u{202F}' {
            22
        } else if c == '\u{205F}' {
            23
        } else {
            24
        };
        assert(all[i] == c as u32);
    }
}

} // verus!
