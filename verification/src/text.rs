//! Characters, strings and decimal numbers.

use vstd::prelude::*;

verus! {

/// `String::push` appends the given character to the end of the string.
pub assume_specification[ String::push ](s: &mut String, c: char)
    ensures
        final(s)@ == old(s)@.push(c),
;

/// The decimal digit `d`, for `d` in `0..10`.
pub open spec fn digit(d: int) -> char {
    (48 + d) as char
}

/// `n` in decimal, without leading zeros.
pub open spec fn decimal(n: nat) -> Seq<char>
    decreases n,
{
    if n < 10 {
        seq![digit(n as int)]
    } else {
        decimal(n / 10).push(digit((n % 10) as int))
    }
}

/// `n` in decimal, filled up with zeros on the left to at least `width` digits.
pub open spec fn zero_padded(n: nat, width: nat) -> Seq<char> {
    let d = decimal(n);
    if d.len() < width {
        Seq::new((width - d.len()) as nat, |i: int| '0') + d
    } else {
        d
    }
}

/// Appends `n` in decimal to `out`.
pub fn push_decimal(out: &mut String, n: u64)
    ensures
        final(out)@ == old(out)@ + decimal(n as nat),
    decreases n,
{
    let ghost before = out@;
    if n >= 10 {
        push_decimal(out, n / 10);
    }
    let d: u8 = (n % 10) as u8;
    let c = (48u8 + d) as char;
    out.push(c);
    assert(out@ =~= before + decimal(n as nat));
}

/// Appends `n` in decimal to `out`, filled up with zeros to `width` digits.
pub fn push_padded(out: &mut String, n: u64, width: usize)
    ensures
        final(out)@ == old(out)@ + zero_padded(n as nat, width as nat),
{
    let mut digits = String::new();
    push_decimal(&mut digits, n);
    assert(digits@ =~= decimal(n as nat));
    let len = digits.as_str().unicode_len();
    let ghost before = out@;
    let mut filled: usize = len;
    while filled < width
        invariant
            len <= filled,
            len < width ==> filled <= width,
            len >= width ==> filled == len,
            out@ == before + Seq::new((filled - len) as nat, |i: int| '0'),
        decreases width - filled,
    {
        out.push('0');
        filled = filled + 1;
        assert(out@ =~= before + Seq::new((filled - len) as nat, |i: int| '0'));
    }
    out.append(digits.as_str());
    assert(out@ =~= before + zero_padded(n as nat, width as nat));
}

/// The characters of `s`.
pub fn chars_of(s: &str) -> (v: Vec<char>)
    ensures
        v@ == s@,
{
    let mut v: Vec<char> = Vec::new();
    for c in it: s.chars()
        invariant
            v@ == s@.take(it.index() as int),
            it.seq() == s@,
    {
        v.push(c);
        assert(v@ =~= s@.take(it.index() as int + 1));
    }
    assert(v@ =~= s@);
    v
}

/// Appends the characters `from..to` of `v` to `out`.
pub fn push_chars(out: &mut String, v: &Vec<char>, from: usize, to: usize)
    requires
        from <= to <= v@.len(),
    ensures
        final(out)@ == old(out)@ + v@.subrange(from as int, to as int),
{
    let ghost before = out@;
    let mut i: usize = from;
    while i < to
        invariant
            from <= i <= to <= v@.len(),
            out@ == before + v@.subrange(from as int, i as int),
        decreases to - i,
    {
        out.push(v[i]);
        i = i + 1;
        assert(out@ =~= before + v@.subrange(from as int, i as int));
    }
    assert(out@ =~= before + v@.subrange(from as int, to as int));
}

/// Whether two strings hold the same characters.
pub fn same_text(a: &str, b: &str) -> (same: bool)
    ensures
        same == (a@ == b@),
{
    let x = a.as_bytes();
    let y = b.as_bytes();
    proof {
        vstd::utf8::encode_utf8_decode_utf8(a@);
        vstd::utf8::encode_utf8_decode_utf8(b@);
    }
    if x.len() != y.len() {
        return false;
    }
    let mut i: usize = 0;
    while i < x.len()
        invariant
            x@.len() == y@.len(),
            x@ == vstd::utf8::encode_utf8(a@),
            y@ == vstd::utf8::encode_utf8(b@),
            i <= x@.len(),
            forall|j: int| 0 <= j < i ==> x@[j] == y@[j],
        decreases x@.len() - i,
    {
        if x[i] != y[i] {
            return false;
        }
        i = i + 1;
    }
    assert(x@ =~= y@);
    true
}

/// How many bytes `c` takes in UTF-8.
pub open spec fn utf8_width(c: char) -> nat {
    let code = c as u32;
    if code < 0x80 {
        1
    } else if code < 0x800 {
        2
    } else if code < 0x1_0000 {
        3
    } else {
        4
    }
}

/// As many of the first characters of `s` as fit in `limit` bytes of UTF-8.
pub open spec fn prefix_within(s: Seq<char>, limit: nat) -> Seq<char>
    decreases s.len(),
{
    if s.len() == 0 || utf8_width(s[0]) > limit {
        Seq::empty()
    } else {
        seq![s[0]] + prefix_within(s.skip(1), (limit - utf8_width(s[0])) as nat)
    }
}

/// Appends to `out` as many of the first characters of `s` as fit in `limit` bytes.
pub fn push_prefix_within(out: &mut String, s: &str, limit: usize)
    ensures
        final(out)@ == old(out)@ + prefix_within(s@, limit as nat),
{
    let chars = chars_of(s);
    let ghost before = out@;
    let mut left: usize = limit;
    let mut i: usize = 0;
    proof {
        assert(s@.skip(0) =~= s@);
    }
    while i < chars.len()
        invariant
            chars@ == s@,
            before == old(out)@,
            i <= chars@.len(),
            out@ + prefix_within(s@.skip(i as int), left as nat) == before + prefix_within(s@, limit as nat),
        decreases chars@.len() - i,
    {
        let c = chars[i];
        let code: u32 = c as u32;
        let width: usize = if code < 0x80 {
            1
        } else if code < 0x800 {
            2
        } else if code < 0x1_0000 {
            3
        } else {
            4
        };
        let ghost rest = s@.skip(i as int);
        assert(rest[0] == c);
        if width > left {
            assert(out@ =~= before + prefix_within(s@, limit as nat));
            return;
        }
        let ghost tail = prefix_within(s@.skip(i + 1), (left - width) as nat);
        assert(rest.skip(1) =~= s@.skip(i + 1));
        assert(out@ + (seq![c] + tail) =~= out@.push(c) + tail);
        out.push(c);
        left = left - width;
        i = i + 1;
    }
    assert(out@ =~= before + prefix_within(s@, limit as nat));
}

/// The number that a text of decimal digits stands for.
pub open spec fn value_of(s: Seq<char>) -> nat
    decreases s.len(),
{
    if s.len() == 0 {
        0
    } else {
        10 * value_of(s.drop_last()) + (s.last() as int - '0' as int) as nat
    }
}

/// Whether a text has nothing but decimal digits, and at least one.
pub open spec fn is_number(s: Seq<char>) -> bool {
    s.len() > 0 && forall|i: int| 0 <= i < s.len() ==> '0' <= #[trigger] s[i] <= '9'
}

/// A number in decimal is digits that stand for it, and the first of several is not a zero.
pub proof fn law_decimal_reads_back(n: nat)
    ensures
        is_number(decimal(n)),
        value_of(decimal(n)) == n,
        decimal(n)[0] == '0' ==> decimal(n).len() == 1,
        n > 0 ==> decimal(n)[0] != '0',
    decreases n,
{
    let d = decimal(n);
    if n < 10 {
        assert(d.drop_last() =~= Seq::<char>::empty());
        assert(value_of(d.drop_last()) == 0);
    } else {
        law_decimal_reads_back(n / 10);
        assert(d.drop_last() =~= decimal(n / 10));
        assert(d[0] == decimal(n / 10)[0]);
        assert forall|i: int| 0 <= i < d.len() implies '0' <= #[trigger] d[i] <= '9' by {
            if i < d.len() - 1 {
                assert(d[i] == decimal(n / 10)[i]);
            }
        }
    }
}

proof fn lemma_leading_zeros(zeros: nat, s: Seq<char>)
    ensures
        value_of(Seq::new(zeros, |i: int| '0') + s) == value_of(s),
    decreases zeros + s.len(),
{
    let fill = Seq::new(zeros, |i: int| '0');
    let all = fill + s;
    if s.len() > 0 {
        assert(all.drop_last() =~= fill + s.drop_last());
        lemma_leading_zeros(zeros, s.drop_last());
    } else if zeros > 0 {
        let fewer = Seq::new((zeros - 1) as nat, |i: int| '0');
        assert(all.drop_last() =~= fewer + s);
        lemma_leading_zeros((zeros - 1) as nat, s);
    } else {
        assert(all =~= s);
    }
}

/// A number filled up to some width is digits that stand for it, no fewer than that, and no more than
/// the number needs beyond that.
pub proof fn law_padded_reads_back(n: nat, width: nat)
    ensures
        is_number(zero_padded(n, width)),
        value_of(zero_padded(n, width)) == n,
        zero_padded(n, width).len() >= width,
        zero_padded(n, width).len() > width && zero_padded(n, width)[0] == '0' ==> zero_padded(n, width).len() == 1,
{
    law_decimal_reads_back(n);
    let d = decimal(n);
    if d.len() < width {
        lemma_leading_zeros((width - d.len()) as nat, d);
        let z = zero_padded(n, width);
        assert forall|i: int| 0 <= i < z.len() implies '0' <= #[trigger] z[i] <= '9' by {
            if i >= width - d.len() {
                assert(z[i] == d[i - (width - d.len())]);
            }
        }
    }
}

/// Digits of one length that stand for the same number are the same.
pub proof fn law_digits_tell_numbers_apart(a: Seq<char>, b: Seq<char>)
    requires
        is_number(a),
        is_number(b),
        a.len() == b.len(),
        value_of(a) == value_of(b),
    ensures
        a == b,
    decreases a.len(),
{
    let x = a.drop_last();
    let y = b.drop_last();
    assert('0' <= a[a.len() - 1] <= '9' && '0' <= b[b.len() - 1] <= '9');
    assert(value_of(x) == value_of(y) && a.last() == b.last());
    if a.len() > 1 {
        assert forall|i: int| 0 <= i < x.len() implies '0' <= #[trigger] x[i] <= '9' && '0' <= y[i] <= '9' by {
            assert(x[i] == a[i] && y[i] == b[i]);
        }
        law_digits_tell_numbers_apart(x, y);
    }
    assert(a =~= x.push(a.last()));
    assert(b =~= y.push(b.last()));
    assert(x =~= y);
}

/// A number of one or two digits takes two characters when it is filled up to two.
pub proof fn law_two_digits(n: nat)
    requires
        n < 100,
    ensures
        zero_padded(n, 2).len() == 2,
{
    if n >= 10 {
        assert(decimal(n / 10).len() == 1);
    }
}

/// What `push_decimal` appends is a number in digits, and what was there before stays.
pub proof fn law_push_decimal_appends_the_number(out: &mut String, n: u64)
    requires
        call_ensures(push_decimal, (out, n), ()),
    ensures
        old(out)@.is_prefix_of(final(out)@),
        is_number(final(out)@.skip(old(out)@.len() as int)),
        value_of(final(out)@.skip(old(out)@.len() as int)) == n,
{
    law_decimal_reads_back(n as nat);
    let before = old(out)@;
    let after = final(out)@;
    assert(after =~= before + decimal(n as nat));
    assert(before =~= after.take(before.len() as int));
    assert(after.skip(before.len() as int) =~= decimal(n as nat));
}

/// How many bytes a text takes in UTF-8.
pub open spec fn utf8_len(s: Seq<char>) -> nat {
    vstd::utf8::encode_utf8(s).len()
}

proof fn lemma_utf8_width(c: char)
    ensures
        vstd::utf8::encode_scalar(c as u32).len() == utf8_width(c),
{
    vstd::utf8::char_is_scalar(c);
}

/// A prefix that is to fit in some bytes is one that does, and the next longer does not.
pub proof fn law_prefix_is_the_longest_that_fits(s: Seq<char>, limit: nat)
    ensures
        prefix_within(s, limit).is_prefix_of(s),
        utf8_len(prefix_within(s, limit)) <= limit,
        prefix_within(s, limit).len() < s.len() ==> utf8_len(s.take(prefix_within(s, limit).len() as int + 1)) > limit,
    decreases s.len(),
{
    let p = prefix_within(s, limit);
    if s.len() > 0 {
        lemma_utf8_width(s[0]);
        assert(s.take(1).drop_first() =~= Seq::<char>::empty());
        assert(vstd::utf8::encode_utf8(s.take(1)) =~= vstd::utf8::encode_scalar(s.take(1)[0] as u32)
            + vstd::utf8::encode_utf8(s.take(1).drop_first()));
    }
    if s.len() == 0 || utf8_width(s[0]) > limit {
        assert(p =~= s.take(0));
        assert(utf8_len(p) == 0);
    } else {
        let left = (limit - utf8_width(s[0])) as nat;
        let rest = prefix_within(s.skip(1), left);
        law_prefix_is_the_longest_that_fits(s.skip(1), left);
        assert(p =~= s.take(p.len() as int)) by {
            assert(rest =~= s.skip(1).take(rest.len() as int));
        }
        assert(p.drop_first() =~= rest);
        assert(utf8_len(p) == utf8_width(s[0]) + utf8_len(rest));
        if p.len() < s.len() {
            let longer = s.take(p.len() as int + 1);
            assert(longer.drop_first() =~= s.skip(1).take(rest.len() as int + 1));
            assert(utf8_len(longer) == utf8_width(s[0]) + utf8_len(s.skip(1).take(rest.len() as int + 1)));
        }
    }
}

/// Whether `part` is somewhere in `text`.
pub open spec fn mentions(text: Seq<char>, part: Seq<char>) -> bool {
    exists|before: Seq<char>, after: Seq<char>| text == #[trigger] (before + part + after)
}

/// Whether digits that stand for `n` are somewhere in `text`.
pub open spec fn mentions_number(text: Seq<char>, n: nat) -> bool {
    exists|digits: Seq<char>| #[trigger] mentions(text, digits) && is_number(digits) && value_of(digits) == n
}

pub(crate) proof fn lemma_mentions(before: Seq<char>, part: Seq<char>, after: Seq<char>, text: Seq<char>)
    requires
        text =~= before + part + after,
    ensures
        mentions(text, part),
{
    assert(text == before + part + after);
}

pub(crate) proof fn lemma_mentions_number(before: Seq<char>, n: nat, after: Seq<char>, text: Seq<char>)
    requires
        text =~= before + decimal(n) + after,
    ensures
        mentions_number(text, n),
{
    law_decimal_reads_back(n);
    lemma_mentions(before, decimal(n), after, text);
}

/// What `push_padded` appends is a number in digits, filled up to the width, and what was there before stays.
pub proof fn law_push_padded_appends_the_number(out: &mut String, n: u64, width: usize)
    requires
        call_ensures(push_padded, (out, n, width), ()),
    ensures
        old(out)@.is_prefix_of(final(out)@),
        ({
            let digits = final(out)@.skip(old(out)@.len() as int);
            &&& is_number(digits)
            &&& value_of(digits) == n
            &&& digits.len() >= width
            &&& digits.len() > width && digits[0] == '0' ==> digits.len() == 1
        }),
{
    law_padded_reads_back(n as nat, width as nat);
    let before = old(out)@;
    let after = final(out)@;
    assert(after =~= before + zero_padded(n as nat, width as nat));
    assert(before =~= after.take(before.len() as int));
    assert(after.skip(before.len() as int) =~= zero_padded(n as nat, width as nat));
}

/// What `push_chars` and `push_prefix_within` append are the characters asked for, and what was there before
/// stays.
pub proof fn law_characters_are_appended(
    out: &mut String,
    v: &Vec<char>,
    from: usize,
    to: usize,
    cut: &mut String,
    s: &str,
    limit: usize,
)
    requires
        from <= to <= v@.len(),
        call_ensures(push_chars, (out, v, from, to), ()),
        call_ensures(push_prefix_within, (cut, s, limit), ()),
    ensures
        final(out)@.len() == old(out)@.len() + (to - from),
        forall|i: int| 0 <= i < old(out)@.len() ==> final(out)@[i] == #[trigger] old(out)@[i],
        forall|i: int| from <= i < to ==> final(out)@[old(out)@.len() + i - from] == #[trigger] v@[i],
        old(cut)@.is_prefix_of(final(cut)@),
        ({
            let added = final(cut)@.skip(old(cut)@.len() as int);
            &&& added.is_prefix_of(s@)
            &&& utf8_len(added) <= limit
            &&& added.len() < s@.len() ==> utf8_len(s@.take(added.len() as int + 1)) > limit
        }),
{
    law_prefix_is_the_longest_that_fits(s@, limit as nat);
    let before = old(cut)@;
    let after = final(cut)@;
    assert(before =~= after.take(before.len() as int));
    assert(after.skip(before.len() as int) =~= prefix_within(s@, limit as nat));
}

/// The characters of a string are its own, in order, and two strings are the same if and only if they have
/// the same characters.
pub proof fn law_characters_make_the_text(a: &str, b: &str, v: Vec<char>, same: bool)
    requires
        call_ensures(chars_of, (a,), v),
        call_ensures(same_text, (a, b), same),
    ensures
        v@.len() == a@.len(),
        forall|i: int| 0 <= i < a@.len() ==> v@[i] == #[trigger] a@[i],
        same <==> a@.len() == b@.len() && forall|i: int| 0 <= i < a@.len() ==> b@[i] == #[trigger] a@[i],
{
    if a@.len() == b@.len() && forall|i: int| 0 <= i < a@.len() ==> b@[i] == #[trigger] a@[i] {
        assert(a@ =~= b@);
    }
}

} // verus!
