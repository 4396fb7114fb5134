//! Values that are typed in together with their unit.
use vstd::prelude::*;

verus! {

/// Whether a character has the Unicode property White_Space.
pub open spec fn is_white(c: char) -> bool {
    let u = c as u32;
    ||| 0x9 <= u <= 0xd
    ||| u == 0x20
    ||| u == 0x85
    ||| u == 0xa0
    ||| u == 0x1680
    ||| 0x2000 <= u <= 0x200a
    ||| u == 0x2028
    ||| u == 0x2029
    ||| u == 0x202f
    ||| u == 0x205f
    ||| u == 0x3000
}

fn white(c: char) -> (r: bool)
    ensures
        r == is_white(c),
{
    let u: u32 = c as u32;
    (0x9 <= u && u <= 0xd) || u == 0x20 || u == 0x85 || u == 0xa0 || u == 0x1680 || (0x2000 <= u && u
        <= 0x200a) || u == 0x2028 || u == 0x2029 || u == 0x202f || u == 0x205f || u == 0x3000
}

/// `s` without the white space that it starts with.
pub open spec fn without_leading(s: Seq<char>) -> Seq<char>
    decreases s.len(),
{
    if s.len() > 0 && is_white(s.first()) {
        without_leading(s.drop_first())
    } else {
        s
    }
}

/// `s` without the white space that it ends with.
pub open spec fn without_trailing(s: Seq<char>) -> Seq<char>
    decreases s.len(),
{
    if s.len() > 0 && is_white(s.last()) {
        without_trailing(s.drop_last())
    } else {
        s
    }
}

/// `s` without the white space around it.
pub open spec fn trimmed(s: Seq<char>) -> Seq<char> {
    without_trailing(without_leading(s))
}

/// `s` without `unit` at its end, however often it stands there.
pub open spec fn without_unit(s: Seq<char>, unit: Seq<char>) -> Seq<char>
    decreases s.len(),
{
    if 0 < unit.len() <= s.len() && s.skip(s.len() - unit.len()) == unit {
        without_unit(s.take(s.len() - unit.len()), unit)
    } else {
        s
    }
}

/// The number in what was typed in: what is left without the unit and without white space.
pub open spec fn number_part(s: Seq<char>, unit: Seq<char>) -> Seq<char> {
    trimmed(without_unit(trimmed(s), unit))
}

/// Narrows the range from `lo` to before `hi` of `text` to what has no white space around it.
fn trim(text: &str, lo: usize, hi: usize) -> (r: (usize, usize))
    requires
        lo <= hi <= text@.len(),
    ensures
        lo <= r.0 <= r.1 <= hi,
        text@.subrange(r.0 as int, r.1 as int) == trimmed(text@.subrange(lo as int, hi as int)),
{
    let ghost whole = text@.subrange(lo as int, hi as int);
    let mut from: usize = lo;
    while from < hi && white(text.get_char(from))
        invariant
            lo <= from <= hi <= text@.len(),
            without_leading(text@.subrange(from as int, hi as int)) == without_leading(whole),
        decreases hi - from,
    {
        assert(text@.subrange(from as int, hi as int).drop_first() =~= text@.subrange(
            from + 1,
            hi as int,
        ));
        from = from + 1;
    }
    let ghost rest = text@.subrange(from as int, hi as int);
    assert(rest == without_leading(whole));
    let mut to: usize = hi;
    while from < to && white(text.get_char(to - 1))
        invariant
            lo <= from <= to <= hi <= text@.len(),
            without_trailing(text@.subrange(from as int, to as int)) == without_trailing(rest),
        decreases to,
    {
        assert(text@.subrange(from as int, to as int).drop_last() =~= text@.subrange(
            from as int,
            to - 1,
        ));
        to = to - 1;
    }
    (from, to)
}

/// Whether `unit` stands in `text` right before `hi`, at `lo` at the earliest.
fn ends_in(text: &str, lo: usize, hi: usize, unit: &str) -> (r: bool)
    requires
        lo <= hi <= text@.len(),
    ensures
        r == (unit@.len() <= hi - lo && text@.subrange(lo as int, hi as int).skip(
            hi - lo - unit@.len(),
        ) == unit@),
{
    let n: usize = unit.unicode_len();
    if hi - lo < n {
        return false;
    }
    let ghost end = text@.subrange(lo as int, hi as int).skip(hi - lo - n);
    for i in 0..n
        invariant
            lo <= hi <= text@.len(),
            n == unit@.len(),
            n <= hi - lo,
            end == text@.subrange(lo as int, hi as int).skip(hi - lo - n),
            forall|k: int| 0 <= k < i ==> #[trigger] end[k] == unit@[k],
    {
        assert(end[i as int] == text@[hi - n + i]);
        if text.get_char(hi - n + i) != unit.get_char(i) {
            return false;
        }
    }
    assert(end =~= unit@);
    true
}

/// The number in what was typed in: what is left without the unit and without white space.
pub fn strip_unit<'a>(text: &'a str, unit: &str) -> (r: &'a str)
    requires
        unit@.len() > 0,
    ensures
        r@ == number_part(text@, unit@),
{
    let n: usize = text.unicode_len();
    let m: usize = unit.unicode_len();
    assert(text@.subrange(0, n as int) =~= text@);
    let (lo, hi) = trim(text, 0, n);
    let ghost inner = text@.subrange(lo as int, hi as int);
    let mut to: usize = hi;
    while ends_in(text, lo, to, unit)
        invariant
            m == unit@.len(),
            m > 0,
            lo <= to <= hi <= text@.len(),
            without_unit(text@.subrange(lo as int, to as int), unit@) == without_unit(inner, unit@),
        decreases to,
    {
        assert(text@.subrange(lo as int, to as int).take(to - lo - m) =~= text@.subrange(
            lo as int,
            to - m,
        ));
        to = to - m;
    }
    let (lo, hi) = trim(text, lo, to);
    text.substring_char(lo, hi)
}

// ---- what is left ----

/// There is nothing but white space in `s`.
pub open spec fn all_white(s: Seq<char>) -> bool {
    forall|i: int| 0 <= i < s.len() ==> is_white(#[trigger] s[i])
}

/// `s` neither starts nor ends with white space.
pub open spec fn bare(s: Seq<char>) -> bool {
    s.len() > 0 ==> !is_white(s.first()) && !is_white(s.last())
}

/// `unit` stands at the end of `s`.
pub open spec fn ends_with(s: Seq<char>, unit: Seq<char>) -> bool {
    unit.len() <= s.len() && s.skip(s.len() - unit.len()) == unit
}

/// Blanks, tabs and the ends of lines are white space, and digits, letters and signs are not.
pub proof fn law_signs_are_not_white(c: char)
    ensures
        '!' <= c <= '~' ==> !is_white(c),
        c == ' ' || c == '\t' || c == '\n' || c == '\r' ==> is_white(c),
{
}

proof fn lemma_leading(a: Seq<char>, s: Seq<char>)
    requires
        all_white(a),
        s.len() > 0 ==> !is_white(s.first()),
    ensures
        without_leading(a + s) == s,
    decreases a.len(),
{
    if a.len() == 0 {
        assert(a + s =~= s);
    } else {
        assert((a + s).drop_first() =~= a.drop_first() + s);
        assert((a + s).first() == a[0]);
        assert forall|i: int| 0 <= i < a.drop_first().len() implies is_white(
            #[trigger] a.drop_first()[i],
        ) by {
            assert(is_white(a[i + 1]));
        }
        lemma_leading(a.drop_first(), s);
    }
}

proof fn lemma_trailing(s: Seq<char>, c: Seq<char>)
    requires
        all_white(c),
        s.len() > 0 ==> !is_white(s.last()),
    ensures
        without_trailing(s + c) == s,
    decreases c.len(),
{
    if c.len() == 0 {
        assert(s + c =~= s);
    } else {
        assert((s + c).drop_last() =~= s + c.drop_last());
        assert((s + c).last() == c[c.len() - 1]);
        assert forall|i: int| 0 <= i < c.drop_last().len() implies is_white(
            #[trigger] c.drop_last()[i],
        ) by {
            assert(is_white(c[i]));
        }
        lemma_trailing(s, c.drop_last());
    }
}

/// White space around a text does not count.
pub proof fn law_white_space_does_not_count(a: Seq<char>, s: Seq<char>, c: Seq<char>)
    requires
        all_white(a),
        all_white(c),
        bare(s),
        s.len() > 0,
    ensures
        trimmed(a + s + c) == s,
        trimmed(s) == s,
{
    assert(a + s + c =~= a + (s + c));
    assert((s + c).first() == s.first());
    lemma_leading(a, s + c);
    lemma_trailing(s, c);
    let none = Seq::<char>::empty();
    assert(none + s =~= s && s + none =~= s);
    lemma_leading(none, s);
    lemma_trailing(s, none);
}

/// A number is found with its unit behind it and without, whatever white space there is before,
/// between and behind them.
pub proof fn law_numbers_are_found(
    a: Seq<char>,
    number: Seq<char>,
    b: Seq<char>,
    unit: Seq<char>,
    c: Seq<char>,
)
    requires
        all_white(a),
        all_white(b),
        all_white(c),
        bare(number),
        number.len() > 0,
        bare(unit),
        unit.len() > 0,
        !ends_with(number, unit),
        !ends_with(number + b, unit),
    ensures
        number_part(a + number + b + unit + c, unit) == number,
        number_part(a + number + c, unit) == number,
{
    let both = number + b + unit;
    assert(a + number + b + unit + c =~= a + both + c);
    assert(both.first() == number.first() && both.last() == unit.last());
    law_white_space_does_not_count(a, both, c);
    assert(both.skip(both.len() - unit.len()) =~= unit);
    assert(both.take(both.len() - unit.len()) =~= number + b);
    assert(without_unit(both, unit) == without_unit(number + b, unit));
    assert(without_unit(number + b, unit) == number + b);
    let none = Seq::<char>::empty();
    law_white_space_does_not_count(none, number, b);
    assert(none + number + b =~= number + b);
    law_white_space_does_not_count(a, number, c);
    assert(without_unit(number, unit) == number);
}

proof fn lemma_leading_is_bare(s: Seq<char>)
    ensures
        without_leading(s).len() > 0 ==> !is_white(without_leading(s).first()),
        without_leading(s).len() <= s.len(),
        without_leading(s) == s.skip(s.len() - without_leading(s).len()),
    decreases s.len(),
{
    if s.len() > 0 && is_white(s.first()) {
        lemma_leading_is_bare(s.drop_first());
        let n = without_leading(s).len();
        assert(s.drop_first().skip(s.len() - 1 - n) =~= s.skip(s.len() - n));
    } else {
        assert(s.skip(0) =~= s);
    }
}

proof fn lemma_trailing_is_bare(s: Seq<char>)
    ensures
        without_trailing(s).len() > 0 ==> !is_white(without_trailing(s).last()),
        without_trailing(s).len() <= s.len(),
        without_trailing(s) == s.take(without_trailing(s).len() as int),
    decreases s.len(),
{
    if s.len() > 0 && is_white(s.last()) {
        lemma_trailing_is_bare(s.drop_last());
        let n = without_trailing(s).len() as int;
        assert(s.drop_last().take(n) =~= s.take(n));
    } else {
        assert(s.take(s.len() as int) =~= s);
    }
}

/// What is left has no white space around it, whatever was typed in.
pub proof fn law_what_is_left_is_bare(s: Seq<char>, unit: Seq<char>)
    ensures
        bare(trimmed(s)),
        bare(number_part(s, unit)),
{
    let rest = without_unit(trimmed(s), unit);
    lemma_leading_is_bare(s);
    lemma_trailing_is_bare(without_leading(s));
    lemma_leading_is_bare(rest);
    lemma_trailing_is_bare(without_leading(rest));
}

/// The unit is taken off however often it stands at the end.
pub proof fn law_units_are_taken_off(s: Seq<char>, unit: Seq<char>)
    requires
        unit.len() > 0,
    ensures
        without_unit(s + unit, unit) == without_unit(s, unit),
        !ends_with(s, unit) ==> without_unit(s, unit) == s,
        !ends_with(without_unit(s, unit), unit),
    decreases s.len(),
{
    assert((s + unit).skip(s.len() as int) =~= unit);
    assert((s + unit).take(s.len() as int) =~= s);
    if ends_with(s, unit) {
        law_units_are_taken_off(s.take(s.len() - unit.len()), unit);
    }
}

} // verus!
