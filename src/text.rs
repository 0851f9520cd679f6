use vstd::prelude::*;

verus! {

/// ASCII whitespace: space, tab, line feed, form feed and carriage return.
pub open spec fn is_ascii_ws(b: u8) -> bool {
    b == 0x20 || b == 0x09 || b == 0x0a || b == 0x0c || b == 0x0d
}

/// An ASCII decimal digit.
pub open spec fn is_digit(b: u8) -> bool {
    0x30 <= b <= 0x39
}

/// Every byte of `d` is a decimal digit.
pub open spec fn all_digits(d: Seq<u8>) -> bool {
    forall|i: int| 0 <= i < d.len() ==> is_digit(#[trigger] d[i])
}

/// The number that a string of decimal digits denotes.
pub open spec fn digits_value(d: Seq<u8>) -> nat
    decreases d.len(),
{
    if d.len() == 0 {
        0
    } else {
        digits_value(d.drop_last()) * 10 + (d.last() - 0x30) as nat
    }
}

/// The digits of an unsigned number's text: what follows an optional
/// leading `+`.
pub open spec fn unsigned_digits(s: Seq<u8>) -> Seq<u8> {
    if s.len() > 0 && s[0] == 0x2b {
        s.drop_first()
    } else {
        s
    }
}

/// The unsigned number that `s` denotes when it is at most `max`: an
/// optional `+` followed by one or more decimal digits and nothing else.
pub open spec fn bounded_decimal(s: Seq<u8>, max: nat) -> Option<nat> {
    let d = unsigned_digits(s);
    if d.len() > 0 && all_digits(d) && digits_value(d) <= max {
        Some(digits_value(d))
    } else {
        None
    }
}

/// A string of digits denotes at least what each of its prefixes does.
proof fn lemma_digits_value_prefix(d: Seq<u8>, k: int)
    requires
        0 <= k <= d.len(),
        all_digits(d),
    ensures
        digits_value(d.subrange(0, k)) <= digits_value(d),
    decreases d.len(),
{
    if k < d.len() {
        assert(all_digits(d.drop_last()));
        assert(d.drop_last().subrange(0, k) =~= d.subrange(0, k));
        lemma_digits_value_prefix(d.drop_last(), k);
    } else {
        assert(d.subrange(0, k) =~= d);
    }
}

/// Reads the unsigned number that `s` denotes, if it is at most `max`.
pub fn parse_decimal(s: &[u8], max: u64) -> (r: Option<u64>)
    ensures
        r matches Some(v) ==> bounded_decimal(s@, max as nat) == Some(v as nat),
        r is None ==> bounded_decimal(s@, max as nat) is None,
{
    let start: usize = if s.len() > 0 && s[0] == 0x2b {
        1
    } else {
        0
    };
    let ghost d = unsigned_digits(s@);
    assert(d =~= s@.subrange(start as int, s@.len() as int));
    if start >= s.len() {
        return None;
    }
    let mut acc: u64 = 0;
    let mut i: usize = start;
    while i < s.len()
        invariant
            start <= i <= s.len(),
            d == unsigned_digits(s@),
            d == s@.subrange(start as int, s@.len() as int),
            all_digits(s@.subrange(start as int, i as int)),
            acc as nat == digits_value(s@.subrange(start as int, i as int)),
            acc <= max,
        decreases s.len() - i,
    {
        let b = s[i];
        if b < 0x30 || b > 0x39 {
            assert(d[i - start] == s@[i as int]);
            assert(!is_digit(d[i - start]));
            assert(!all_digits(d));
            return None;
        }
        let ghost prev = s@.subrange(start as int, i as int);
        let ghost next = s@.subrange(start as int, i + 1);
        assert(next.drop_last() =~= prev);
        let digit: u64 = (b - 0x30) as u64;
        if digit > max || acc > (max - digit) / 10 {
            proof {
                assert(acc * 10 + digit > max) by (nonlinear_arith)
                    requires
                        digit > max || acc > (max - digit) / 10,
                        digit > max || digit <= max,
                ;
                if all_digits(d) {
                    assert(next =~= d.subrange(0, i + 1 - start));
                    lemma_digits_value_prefix(d, i + 1 - start);
                }
            }
            return None;
        }
        assert(acc * 10 + digit <= max) by (nonlinear_arith)
            requires
                acc <= (max - digit) / 10,
                digit <= max,
        ;
        acc = acc * 10 + digit;
        i = i + 1;
    }
    assert(s@.subrange(start as int, i as int) =~= d);
    Some(acc)
}

/// The first position at or after `i` that holds whitespace, or the length
/// of `s` where none does.
pub open spec fn word_end(s: Seq<u8>, i: int) -> int
    decreases s.len() - i,
{
    if 0 <= i < s.len() && !is_ascii_ws(s[i]) {
        word_end(s, i + 1)
    } else {
        i
    }
}

proof fn lemma_word_end(s: Seq<u8>, i: int)
    requires
        0 <= i <= s.len(),
    ensures
        i <= word_end(s, i) <= s.len(),
    decreases s.len() - i,
{
    if i < s.len() && !is_ascii_ws(s[i]) {
        lemma_word_end(s, i + 1);
    }
}

/// The tokens of `s` from position `i` on: the maximal runs of bytes that
/// are not ASCII whitespace, in order.
pub open spec fn tokens_from(s: Seq<u8>, i: int) -> Seq<Seq<u8>>
    decreases s.len() - i,
    via tokens_from_decreases
{
    if i < 0 || i >= s.len() {
        seq![]
    } else if is_ascii_ws(s[i]) {
        tokens_from(s, i + 1)
    } else {
        seq![s.subrange(i, word_end(s, i))] + tokens_from(s, word_end(s, i))
    }
}

#[via_fn]
proof fn tokens_from_decreases(s: Seq<u8>, i: int) {
    if 0 <= i < s.len() && !is_ascii_ws(s[i]) {
        lemma_word_end(s, i + 1);
    }
}

/// The whitespace-separated tokens of `s`.
pub open spec fn tokens(s: Seq<u8>) -> Seq<Seq<u8>> {
    tokens_from(s, 0)
}

/// The texts of `s` that a sequence of spans marks out.
pub open spec fn spans_text(s: Seq<u8>, spans: Seq<(usize, usize)>) -> Seq<Seq<u8>> {
    spans.map_values(|p: (usize, usize)| s.subrange(p.0 as int, p.1 as int))
}

/// The spans are ordered ranges of positions within `s`.
pub open spec fn spans_within(s: Seq<u8>, spans: Seq<(usize, usize)>) -> bool {
    forall|k: int| 0 <= k < spans.len() ==> #[trigger] spans[k].0 <= spans[k].1 <= s.len()
}

pub fn is_ws_byte(b: u8) -> (r: bool)
    ensures
        r == is_ascii_ws(b),
{
    b == 0x20 || b == 0x09 || b == 0x0a || b == 0x0c || b == 0x0d
}

/// The start and end positions of the tokens of `s`, in order.
pub fn token_spans(s: &[u8]) -> (r: Vec<(usize, usize)>)
    ensures
        spans_within(s@, r@),
        spans_text(s@, r@) == tokens(s@),
{
    let mut spans: Vec<(usize, usize)> = Vec::new();
    let mut i: usize = 0;
    assert(spans_text(s@, spans@) + tokens_from(s@, 0) =~= tokens_from(s@, 0));
    while i < s.len()
        invariant
            i <= s.len(),
            spans_within(s@, spans@),
            spans_text(s@, spans@) + tokens_from(s@, i as int) == tokens(s@),
        decreases s.len() - i,
    {
        if is_ws_byte(s[i]) {
            i = i + 1;
        } else {
            let mut j: usize = i + 1;
            while j < s.len() && !is_ws_byte(s[j])
                invariant
                    i < j <= s.len(),
                    word_end(s@, i as int) == word_end(s@, j as int),
                decreases s.len() - j,
            {
                j = j + 1;
            }
            let ghost before = spans_text(s@, spans@);
            spans.push((i, j));
            assert(spans_text(s@, spans@) =~= before.push(s@.subrange(i as int, j as int)));
            assert(before + tokens_from(s@, i as int) =~= spans_text(s@, spans@) + tokens_from(
                s@,
                j as int,
            ));
            i = j;
        }
    }
    assert(spans_text(s@, spans@) + tokens_from(s@, i as int) =~= spans_text(s@, spans@));
    spans
}

/// The first position at or after `i` that holds a line feed, or the length
/// of `s` where none does.
pub open spec fn line_end(s: Seq<u8>, i: int) -> int
    decreases s.len() - i,
{
    if 0 <= i < s.len() && s[i] != 0x0a {
        line_end(s, i + 1)
    } else {
        i
    }
}

proof fn lemma_line_end(s: Seq<u8>, i: int)
    requires
        0 <= i <= s.len(),
    ensures
        i <= line_end(s, i) <= s.len(),
    decreases s.len() - i,
{
    if i < s.len() && s[i] != 0x0a {
        lemma_line_end(s, i + 1);
    }
}

/// A line without the carriage return that ends it, if one does.
pub open spec fn strip_cr(l: Seq<u8>) -> Seq<u8> {
    if l.len() > 0 && l.last() == 0x0d {
        l.drop_last()
    } else {
        l
    }
}

/// The lines of `s` from position `i` on. Each line feed ends a line, and a
/// carriage return just before it is dropped; text after the last line feed
/// is a last line as it stands.
pub open spec fn lines_from(s: Seq<u8>, i: int) -> Seq<Seq<u8>>
    decreases s.len() - i,
    via lines_from_decreases
{
    if i < 0 || i >= s.len() {
        seq![]
    } else if line_end(s, i) >= s.len() {
        seq![s.subrange(i, s.len() as int)]
    } else {
        seq![strip_cr(s.subrange(i, line_end(s, i)))] + lines_from(s, line_end(s, i) + 1)
    }
}

#[via_fn]
proof fn lines_from_decreases(s: Seq<u8>, i: int) {
    if 0 <= i < s.len() {
        lemma_line_end(s, i);
    }
}

/// The lines of `s`.
pub open spec fn lines(s: Seq<u8>) -> Seq<Seq<u8>> {
    lines_from(s, 0)
}

/// The line that starts at `pos`: its start and end, and the position where
/// the next line starts.
pub fn next_line(s: &[u8], pos: usize) -> (r: (usize, usize, usize))
    requires
        pos < s.len(),
    ensures
        pos <= r.0 <= r.1 <= r.2 <= s.len(),
        pos < r.2,
        lines_from(s@, pos as int) == seq![s@.subrange(r.0 as int, r.1 as int)] + lines_from(
            s@,
            r.2 as int,
        ),
{
    let mut j: usize = pos;
    while j < s.len() && s[j] != 0x0a
        invariant
            pos <= j <= s.len(),
            line_end(s@, pos as int) == line_end(s@, j as int),
        decreases s.len() - j,
    {
        j = j + 1;
    }
    if j == s.len() {
        assert(seq![s@.subrange(pos as int, j as int)] + lines_from(s@, j as int) =~= seq![
            s@.subrange(pos as int, j as int),
        ]);
        (pos, j, j)
    } else {
        let end: usize = if j > pos && s[j - 1] == 0x0d {
            j - 1
        } else {
            j
        };
        assert(strip_cr(s@.subrange(pos as int, j as int)) =~= s@.subrange(pos as int, end as int));
        (pos, end, j + 1)
    }
}

/// The decimal text of a number: its digits, most significant first, with
/// no sign and no leading zero.
pub open spec fn decimal_text(x: nat) -> Seq<u8>
    decreases x,
{
    if x < 10 {
        seq![(0x30 + x) as u8]
    } else {
        decimal_text(x / 10).push((0x30 + x % 10) as u8)
    }
}

/// The decimal text of a number is a nonempty string of digits that
/// denotes it.
pub proof fn lemma_decimal_text(x: nat)
    ensures
        decimal_text(x).len() > 0,
        all_digits(decimal_text(x)),
        digits_value(decimal_text(x)) == x,
    decreases x,
{
    if x < 10 {
        assert(decimal_text(x).drop_last() =~= Seq::<u8>::empty());
        assert(decimal_text(x).last() - 0x30 == x);
        assert(digits_value(Seq::<u8>::empty()) == 0);
        assert(digits_value(decimal_text(x)) == digits_value(decimal_text(x).drop_last()) * 10 + (
        decimal_text(x).last() - 0x30) as nat);
    } else {
        lemma_decimal_text(x / 10);
        assert(decimal_text(x).drop_last() =~= decimal_text(x / 10));
        assert(decimal_text(x).last() - 0x30 == x % 10);
        assert((x / 10) * 10 + x % 10 == x);
        assert(digits_value(decimal_text(x)) == digits_value(decimal_text(x).drop_last()) * 10 + (
        decimal_text(x).last() - 0x30) as nat);
        assert forall|i: int| 0 <= i < decimal_text(x).len() implies is_digit(
            #[trigger] decimal_text(x)[i],
        ) by {
            if i < decimal_text(x / 10).len() {
                assert(decimal_text(x)[i] == decimal_text(x / 10)[i]);
            }
        }
    }
}

/// Reading back the decimal text of a number gives the number.
pub proof fn lemma_decimal_round_trip(x: nat, max: nat)
    requires
        x <= max,
    ensures
        bounded_decimal(decimal_text(x), max) == Some(x),
{
    lemma_decimal_text(x);
    assert(is_digit(decimal_text(x)[0]));
    assert(unsigned_digits(decimal_text(x)) == decimal_text(x));
}

/// Appends the decimal text of `x` to `out`.
pub fn push_decimal(out: &mut Vec<u8>, x: u64)
    ensures
        final(out)@ == old(out)@ + decimal_text(x as nat),
    decreases x,
{
    if x >= 10 {
        push_decimal(out, x / 10);
    }
    out.push(0x30 + (x % 10) as u8);
    assert(out@ =~= old(out)@ + decimal_text(x as nat));
}

proof fn lemma_line_end_shift(p: Seq<u8>, b: Seq<u8>, i: int)
    requires
        0 <= i <= b.len(),
    ensures
        line_end(p + b, p.len() + i) == p.len() + line_end(b, i),
    decreases b.len() - i,
{
    if i < b.len() {
        assert((p + b)[p.len() + i] == b[i]);
        if b[i] != 0x0a {
            lemma_line_end_shift(p, b, i + 1);
        }
    }
}

/// The lines of a text after a prefix are the lines of the rest.
proof fn lemma_lines_shift(p: Seq<u8>, b: Seq<u8>, i: int)
    requires
        0 <= i <= b.len(),
    ensures
        lines_from(p + b, p.len() + i) == lines_from(b, i),
    decreases b.len() - i,
{
    let s = p + b;
    lemma_line_end_shift(p, b, i);
    lemma_line_end(b, i);
    if i < b.len() {
        let e = line_end(b, i);
        assert(s.subrange(p.len() + i, p.len() + e) =~= b.subrange(i, e));
        assert(s.subrange(p.len() + i, s.len() as int) =~= b.subrange(i, b.len() as int));
        if e < b.len() {
            lemma_lines_shift(p, b, e + 1);
        }
    }
}

proof fn lemma_line_end_at(s: Seq<u8>, i: int, j: int)
    requires
        0 <= i <= j < s.len(),
        s[j] == 0x0a,
        forall|k: int| i <= k < j ==> s[k] != 0x0a,
    ensures
        line_end(s, i) == j,
    decreases j - i,
{
    if i < j {
        lemma_line_end_at(s, i + 1, j);
    }
}

/// A line with no line feed that does not end in a carriage return, followed
/// by a line feed, is the first line of a text; the rest are the lines of
/// what follows.
pub proof fn lemma_lines_of_line(l: Seq<u8>, b: Seq<u8>)
    requires
        forall|k: int| 0 <= k < l.len() ==> l[k] != 0x0a,
        l.len() > 0 ==> l.last() != 0x0d,
    ensures
        lines(l + seq![0x0au8] + b) == seq![l] + lines(b),
{
    let p = l + seq![0x0au8];
    let s = p + b;
    assert forall|k: int| 0 <= k < l.len() implies s[k] != 0x0a by {
        assert(s[k] == l[k]);
    }
    lemma_line_end_at(s, 0, l.len() as int);
    assert(s.subrange(0, l.len() as int) =~= l);
    lemma_lines_shift(p, b, 0);
}

proof fn lemma_word_end_shift(p: Seq<u8>, b: Seq<u8>, i: int)
    requires
        0 <= i <= b.len(),
    ensures
        word_end(p + b, p.len() + i) == p.len() + word_end(b, i),
    decreases b.len() - i,
{
    if i < b.len() {
        assert((p + b)[p.len() + i] == b[i]);
        if !is_ascii_ws(b[i]) {
            lemma_word_end_shift(p, b, i + 1);
        }
    }
}

/// The tokens of a text after a prefix are the tokens of the rest.
proof fn lemma_tokens_shift(p: Seq<u8>, b: Seq<u8>, i: int)
    requires
        0 <= i <= b.len(),
    ensures
        tokens_from(p + b, p.len() + i) == tokens_from(b, i),
    decreases b.len() - i,
{
    let s = p + b;
    if i < b.len() {
        assert(s[p.len() + i] == b[i]);
        if is_ascii_ws(b[i]) {
            lemma_tokens_shift(p, b, i + 1);
        } else {
            lemma_word_end_shift(p, b, i);
            lemma_word_end(b, i + 1);
            let e = word_end(b, i);
            assert(s.subrange(p.len() + i, p.len() + e) =~= b.subrange(i, e));
            lemma_tokens_shift(p, b, e);
        }
    }
}

proof fn lemma_word_end_at(s: Seq<u8>, i: int, j: int)
    requires
        0 <= i <= j <= s.len(),
        j == s.len() || is_ascii_ws(s[j]),
        forall|k: int| i <= k < j ==> !is_ascii_ws(s[k]),
    ensures
        word_end(s, i) == j,
    decreases j - i,
{
    if i < j {
        lemma_word_end_at(s, i + 1, j);
    }
}

/// A word followed by a space is the first token of a text; the rest are the
/// tokens of what follows.
pub proof fn lemma_tokens_of_word(w: Seq<u8>, b: Seq<u8>)
    requires
        w.len() > 0,
        forall|k: int| 0 <= k < w.len() ==> !is_ascii_ws(w[k]),
    ensures
        tokens(w + seq![0x20u8] + b) == seq![w] + tokens(b),
{
    let p = w + seq![0x20u8];
    let s = p + b;
    assert forall|k: int| 0 <= k < w.len() implies !is_ascii_ws(s[k]) by {
        assert(s[k] == w[k]);
    }
    assert(s[w.len() as int] == 0x20);
    lemma_word_end_at(s, 0, w.len() as int);
    assert(s.subrange(0, w.len() as int) =~= w);
    assert(!is_ascii_ws(s[0]));
    assert(tokens_from(s, 0) == seq![w] + tokens_from(s, w.len() as int));
    assert(tokens_from(s, w.len() as int) == tokens_from(s, w.len() + 1 as int));
    lemma_tokens_shift(p, b, 0);
}

/// A word on its own is the one token of a text.
pub proof fn lemma_tokens_of_last_word(w: Seq<u8>)
    requires
        w.len() > 0,
        forall|k: int| 0 <= k < w.len() ==> !is_ascii_ws(w[k]),
    ensures
        tokens(w) == seq![w],
{
    lemma_word_end_at(w, 0, w.len() as int);
    assert(w.subrange(0, w.len() as int) =~= w);
    assert(seq![w] + tokens_from(w, w.len() as int) =~= seq![w]);
}

} // verus!
