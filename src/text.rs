//! Small text primitives of the summary format: colon-separated fields,
//! decimal numbers, and the first line of a text.
use vstd::prelude::*;

verus! {

/// The byte strings held by a list of vectors.
pub open spec fn views(v: Seq<Vec<u8>>) -> Seq<Seq<u8>> {
    Seq::new(v.len(), |k: int| v[k]@)
}

/// The pieces of `s` between occurrences of `sep`; there is always at least one.
pub open spec fn split_on(s: Seq<u8>, sep: u8) -> Seq<Seq<u8>>
    decreases s.len(),
{
    if s.len() == 0 {
        seq![Seq::empty()]
    } else {
        let f = split_on(s.drop_last(), sep);
        if s.last() == sep {
            f.push(Seq::empty())
        } else {
            f.update(f.len() - 1, f.last().push(s.last()))
        }
    }
}

/// The pieces of `s` between colons.
pub open spec fn split_fields(s: Seq<u8>) -> Seq<Seq<u8>> {
    split_on(s, 0x3a)
}

pub proof fn lemma_split_on_nonempty(s: Seq<u8>, sep: u8)
    ensures
        split_on(s, sep).len() >= 1,
    decreases s.len(),
{
    if s.len() > 0 {
        lemma_split_on_nonempty(s.drop_last(), sep);
    }
}

/// `s` without one trailing carriage return.
pub open spec fn strip_cr(s: Seq<u8>) -> Seq<u8> {
    if s.len() > 0 && s.last() == 0x0d {
        s.drop_last()
    } else {
        s
    }
}

/// The lines of a text: each line feed ends a line, and a carriage return
/// just before it is dropped; what follows the last line feed is a last line
/// unless it is empty.
pub open spec fn text_lines(s: Seq<u8>) -> Seq<Seq<u8>> {
    let p = split_on(s, 0x0a);
    let ended = Seq::new((p.len() - 1) as nat, |k: int| strip_cr(p[k]));
    if p.last().len() == 0 {
        ended
    } else {
        ended.push(p.last())
    }
}

/// Splits `s` at every colon.
pub fn split_colons(s: &[u8]) -> (r: Vec<Vec<u8>>)
    ensures
        views(r@) == split_fields(s@),
{
    split_at_byte(s, 0x3a)
}

/// Splits a text into its lines.
pub fn split_lines(s: &[u8]) -> (r: Vec<Vec<u8>>)
    ensures
        views(r@) == text_lines(s@),
{
    let mut pieces = split_at_byte(s, 0x0a);
    proof {
        lemma_split_on_nonempty(s@, 0x0a);
    }
    let ghost p = views(pieces@);
    let last = pieces.pop().unwrap();
    let mut lines: Vec<Vec<u8>> = Vec::new();
    let mut k: usize = 0;
    while k < pieces.len()
        invariant
            k <= pieces@.len(),
            pieces@.len() == p.len() - 1,
            forall|m: int| 0 <= m < pieces@.len() ==> (#[trigger] pieces@[m])@ == p[m],
            lines@.len() == k,
            forall|m: int| 0 <= m < k ==> (#[trigger] lines@[m])@ == strip_cr(p[m]),
        decreases pieces@.len() - k,
    {
        let piece = &pieces[k];
        let mut line: Vec<u8> = Vec::new();
        let n = piece.len();
        let keep = if n > 0 && piece[n - 1] == 0x0d { n - 1 } else { n };
        let mut m: usize = 0;
        while m < keep
            invariant
                m <= keep,
                keep <= piece@.len(),
                line@ == piece@.subrange(0, m as int),
            decreases keep - m,
        {
            line.push(piece[m]);
            m += 1;
            assert(line@ =~= piece@.subrange(0, m as int));
        }
        assert(line@ =~= strip_cr(piece@));
        lines.push(line);
        k += 1;
    }
    if last.len() > 0 {
        lines.push(last);
    }
    assert(views(lines@) =~= text_lines(s@));
    lines
}

/// The text of a list of lines: each line followed by a line feed.
pub open spec fn joined(lines: Seq<Seq<u8>>) -> Seq<u8>
    decreases lines.len(),
{
    if lines.len() == 0 {
        Seq::empty()
    } else {
        joined(lines.drop_last()) + lines.last() + seq![0x0au8]
    }
}

/// Appending text without a separator extends the last piece.
pub proof fn lemma_split_on_extend(p: Seq<u8>, x: Seq<u8>, sep: u8)
    requires
        forall|k: int| 0 <= k < x.len() ==> #[trigger] x[k] != sep,
    ensures
        split_on(p + x, sep) == split_on(p, sep).update(
            split_on(p, sep).len() - 1,
            split_on(p, sep).last() + x,
        ),
    decreases x.len(),
{
    lemma_split_on_nonempty(p, sep);
    let f = split_on(p, sep);
    if x.len() == 0 {
        assert(p + x =~= p);
        assert(f.last() + x =~= f.last());
        assert(f.update(f.len() - 1, f.last() + x) =~= f);
    } else {
        let y = x.drop_last();
        lemma_split_on_extend(p, y, sep);
        assert((p + x).drop_last() =~= p + y);
        assert((p + x).last() == x.last());
        assert(f.last() + y.push(x.last()) =~= f.last() + x);
        assert((f.last() + y).push(x.last()) =~= f.last() + x);
        assert(split_on(p + x, sep) =~= f.update(f.len() - 1, f.last() + x));
    }
}

/// Whether `s` holds no occurrence of `sep`.
pub open spec fn free_of(s: Seq<u8>, sep: u8) -> bool {
    forall|k: int| 0 <= k < s.len() ==> #[trigger] s[k] != sep
}

/// A separator then a piece free of it adds that piece as a new last piece.
pub proof fn lemma_split_on_append_piece(a: Seq<u8>, b: Seq<u8>, sep: u8)
    requires
        free_of(b, sep),
    ensures
        split_on(a + seq![sep] + b, sep) == split_on(a, sep).push(b),
{
    let p = a + seq![sep];
    assert(p.drop_last() =~= a);
    lemma_split_on_extend(p, b, sep);
    let f = split_on(p, sep);
    assert(f == split_on(a, sep).push(Seq::empty()));
    assert(Seq::<u8>::empty() + b =~= b);
    assert(f.update(f.len() - 1, f.last() + b) =~= split_on(a, sep).push(b));
}

/// A piece free of the separator is its own single piece.
pub proof fn lemma_split_on_single(b: Seq<u8>, sep: u8)
    requires
        free_of(b, sep),
    ensures
        split_on(b, sep) == seq![b],
{
    lemma_split_on_extend(Seq::empty(), b, sep);
    assert(Seq::<u8>::empty() + b =~= b);
    assert(split_on(Seq::<u8>::empty(), sep) =~= seq![Seq::<u8>::empty()]);
    assert(seq![Seq::<u8>::empty()].update(0, Seq::<u8>::empty() + b) =~= seq![b]);
}

/// Decimal text consists of digits and reads back as its number.
pub proof fn lemma_decimal_round_trip(n: nat)
    ensures
        is_number(decimal(n)),
        number_digits(decimal(n)) == decimal(n),
        digits_value(decimal(n)) == n,
        forall|k: int| 0 <= k < decimal(n).len() ==> is_digit(#[trigger] decimal(n)[k]),
    decreases n,
{
    if n >= 10 {
        lemma_decimal_round_trip(n / 10);
        let d = decimal(n);
        assert(d.drop_last() =~= decimal(n / 10));
        assert forall|k: int| 0 <= k < d.len() implies is_digit(#[trigger] d[k]) by {
            if k < d.len() - 1 {
                assert(d[k] == decimal(n / 10)[k]);
            }
        }
        assert(d.last() == (0x30 + n % 10) as u8);
        assert((d.last() - 0x30) as nat == n % 10);
        assert(digits_value(d) == digits_value(decimal(n / 10)) * 10 + n % 10);
        assert((n / 10) * 10 + n % 10 == n);
    } else {
        let d = decimal(n);
        assert(d.drop_last() =~= Seq::<u8>::empty());
        assert(digits_value(d) == digits_value(Seq::<u8>::empty()) * 10 + (d.last() - 0x30) as nat);
    }
}

/// The first line of joined lines is the first of them, where it holds no
/// line feed and ends with no carriage return.
pub proof fn lemma_first_of_joined(lines: Seq<Seq<u8>>)
    requires
        lines.len() >= 1,
        free_of(lines[0], 0x0a),
        strip_cr(lines[0]) == lines[0],
    ensures
        first_line(joined(lines)) == lines[0],
{
    lemma_joined_front(lines);
    let rest = joined(lines.drop_first());
    lemma_before_newline_of(lines[0], rest);
}

/// Joined lines start with the first line and a line feed.
pub proof fn lemma_joined_front(lines: Seq<Seq<u8>>)
    requires
        lines.len() >= 1,
    ensures
        joined(lines) == lines[0] + seq![0x0au8] + joined(lines.drop_first()),
    decreases lines.len(),
{
    if lines.len() == 1 {
        assert(lines.drop_last() =~= Seq::<Seq<u8>>::empty());
        assert(lines.drop_first() =~= Seq::<Seq<u8>>::empty());
        assert(joined(lines) =~= lines[0] + seq![0x0au8] + joined(lines.drop_first()));
    } else {
        lemma_joined_front(lines.drop_last());
        assert(lines.drop_last().drop_first() =~= lines.drop_first().drop_last());
        assert(lines.drop_first().last() == lines.last());
        assert(joined(lines) =~= lines[0] + seq![0x0au8] + joined(lines.drop_first()));
    }
}

proof fn lemma_before_newline_of(l: Seq<u8>, rest: Seq<u8>)
    requires
        free_of(l, 0x0a),
    ensures
        before_newline(l + seq![0x0au8] + rest) == l,
        (l + seq![0x0au8] + rest).len() > l.len(),
    decreases l.len(),
{
    let s = l + seq![0x0au8] + rest;
    if l.len() > 0 {
        let t = l.drop_first();
        assert(free_of(t, 0x0a)) by {
            assert forall|k: int| 0 <= k < t.len() implies #[trigger] t[k] != 0x0a by {
                assert(t[k] == l[k + 1]);
            }
        }
        lemma_before_newline_of(t, rest);
        assert(s.drop_first() =~= t + seq![0x0au8] + rest);
        assert(s[0] == l[0]);
        assert(seq![l[0]] + t =~= l);
    } else {
        assert(s[0] == 0x0a);
    }
}

/// Whether no line holds a line feed and none ends with a carriage return.
pub open spec fn plain_lines(lines: Seq<Seq<u8>>) -> bool {
    forall|k: int|
        0 <= k < lines.len() ==> (forall|m: int|
            0 <= m < lines[k].len() ==> #[trigger] lines[k][m] != 0x0a) && strip_cr(
            #[trigger] lines[k],
        ) == lines[k]
}

/// Splitting joined lines at line feeds gives the lines, then an empty piece.
pub proof fn lemma_split_joined(lines: Seq<Seq<u8>>)
    requires
        plain_lines(lines),
    ensures
        split_on(joined(lines), 0x0a) == lines.push(Seq::empty()),
    decreases lines.len(),
{
    if lines.len() == 0 {
        assert(split_on(Seq::<u8>::empty(), 0x0a) =~= seq![Seq::<u8>::empty()]);
        assert(lines.push(Seq::empty()) =~= seq![Seq::<u8>::empty()]);
    } else {
        let rest = lines.drop_last();
        let l = lines.last();
        assert(plain_lines(rest)) by {
            assert forall|k: int| 0 <= k < rest.len() implies rest[k] == lines[k] by {}
        }
        lemma_split_joined(rest);
        assert(lines[lines.len() - 1] == l);
        assert forall|m: int| 0 <= m < l.len() implies #[trigger] l[m] != 0x0a by {
            assert(lines[lines.len() - 1][m] != 0x0a);
        }
        lemma_split_on_extend(joined(rest), l, 0x0a);
        let t = joined(rest) + l + seq![0x0au8];
        assert(t.drop_last() =~= joined(rest) + l);
        assert(rest.push(Seq::empty()).update(rest.len() as int, Seq::<u8>::empty() + l) =~= lines);
        assert(split_on(t, 0x0a) =~= lines.push(Seq::empty()));
    }
}

/// Splitting joined plain lines into lines gives them back.
pub proof fn lemma_lines_round_trip(lines: Seq<Seq<u8>>)
    requires
        plain_lines(lines),
    ensures
        text_lines(joined(lines)) == lines,
{
    lemma_split_joined(lines);
    let p = split_on(joined(lines), 0x0a);
    assert forall|k: int| 0 <= k < lines.len() implies strip_cr(p[k]) == lines[k] by {
        assert(p[k] == lines[k]);
    }
    assert(text_lines(joined(lines)) =~= lines);
}

/// Writes each line followed by a line feed.
pub fn join_lines(lines: &Vec<Vec<u8>>) -> (r: Vec<u8>)
    ensures
        r@ == joined(views(lines@)),
{
    let ghost lv = views(lines@);
    let mut text: Vec<u8> = Vec::new();
    let mut k: usize = 0;
    assert(lv.subrange(0, 0) =~= Seq::<Seq<u8>>::empty());
    while k < lines.len()
        invariant
            k <= lines@.len(),
            lv == views(lines@),
            text@ == joined(lv.subrange(0, k as int)),
        decreases lines@.len() - k,
    {
        let line = &lines[k];
        let mut m: usize = 0;
        let ghost start = text@;
        while m < line.len()
            invariant
                m <= line@.len(),
                text@ == start + line@.subrange(0, m as int),
            decreases line@.len() - m,
        {
            text.push(line[m]);
            m += 1;
            assert(text@ =~= start + line@.subrange(0, m as int));
        }
        text.push(0x0a);
        assert(lv.subrange(0, k + 1).drop_last() =~= lv.subrange(0, k as int));
        assert(line@.subrange(0, m as int) =~= line@);
        k += 1;
        assert(text@ =~= joined(lv.subrange(0, k as int)));
    }
    assert(lv.subrange(0, lines@.len() as int) =~= lv);
    text
}

/// Splits `s` at every occurrence of `sep`.
fn split_at_byte(s: &[u8], sep: u8) -> (r: Vec<Vec<u8>>)
    ensures
        views(r@) == split_on(s@, sep),
{
    let mut fields: Vec<Vec<u8>> = Vec::new();
    let mut cur: Vec<u8> = Vec::new();
    let mut k: usize = 0;
    assert(s@.subrange(0, 0) =~= Seq::<u8>::empty());
    assert(views(fields@).push(cur@) =~= split_on(Seq::<u8>::empty(), sep));
    while k < s.len()
        invariant
            k <= s@.len(),
            views(fields@).push(cur@) == split_on(s@.subrange(0, k as int), sep),
        decreases s@.len() - k,
    {
        let ghost before = views(fields@).push(cur@);
        proof {
            let t = s@.subrange(0, k + 1);
            assert(t.drop_last() =~= s@.subrange(0, k as int));
            lemma_split_on_nonempty(t.drop_last(), sep);
        }
        if s[k] == sep {
            fields.push(cur);
            cur = Vec::new();
            assert(views(fields@).push(cur@) =~= before.push(Seq::empty()));
        } else {
            cur.push(s[k]);
            assert(views(fields@).push(cur@) =~= before.update(
                before.len() - 1,
                before.last().push(s@[k as int]),
            ));
        }
        k += 1;
    }
    assert(s@.subrange(0, s@.len() as int) =~= s@);
    fields.push(cur);
    fields
}

/// The decimal digits of `n`, most significant first, with no leading zero.
pub open spec fn decimal(n: nat) -> Seq<u8>
    decreases n,
{
    if n < 10 {
        seq![(0x30 + n) as u8]
    } else {
        decimal(n / 10).push((0x30 + n % 10) as u8)
    }
}

/// Writes `n` in decimal.
pub fn format_decimal(n: usize) -> (r: Vec<u8>)
    ensures
        r@ == decimal(n as nat),
    decreases n,
{
    if n < 10 {
        let mut v: Vec<u8> = Vec::new();
        v.push(0x30 + n as u8);
        assert(v@ =~= decimal(n as nat));
        v
    } else {
        let mut v = format_decimal(n / 10);
        v.push(0x30 + (n % 10) as u8);
        v
    }
}

/// Whether `c` is an ASCII decimal digit.
pub open spec fn is_digit(c: u8) -> bool {
    0x30 <= c <= 0x39
}

/// The number that a string of decimal digits stands for.
pub open spec fn digits_value(s: Seq<u8>) -> nat
    decreases s.len(),
{
    if s.len() == 0 {
        0
    } else {
        digits_value(s.drop_last()) * 10 + (s.last() - 0x30) as nat
    }
}

/// The digits of a number text: all of it, or what follows one leading `+`.
pub open spec fn number_digits(s: Seq<u8>) -> Seq<u8> {
    if s.len() > 0 && s[0] == 0x2b {
        s.drop_first()
    } else {
        s
    }
}

/// Whether `s` is an unsigned number text: an optional `+`, then one or more
/// decimal digits.
pub open spec fn is_number(s: Seq<u8>) -> bool {
    let d = number_digits(s);
    d.len() > 0 && forall|k: int| 0 <= k < d.len() ==> is_digit(#[trigger] d[k])
}

/// Parses an unsigned number that fits in `usize`.
pub fn parse_usize(s: &[u8]) -> (r: Option<usize>)
    ensures
        r is Some <==> is_number(s@) && digits_value(number_digits(s@)) <= usize::MAX,
        r is Some ==> r->Some_0 == digits_value(number_digits(s@)),
{
    let ghost d = number_digits(s@);
    let start: usize = if s.len() > 0 && s[0] == 0x2b { 1 } else { 0 };
    if start >= s.len() {
        return None;
    }
    assert(d =~= s@.subrange(start as int, s@.len() as int));
    let mut value: usize = 0;
    let mut k: usize = start;
    while k < s.len()
        invariant
            start <= k <= s@.len(),
            d == s@.subrange(start as int, s@.len() as int),
            d == number_digits(s@),
            forall|m: int| 0 <= m < k - start ==> is_digit(#[trigger] d[m]),
            value == digits_value(d.subrange(0, k - start)),
        decreases s@.len() - k,
    {
        let c = s[k];
        assert(d[k - start] == c);
        if c < 0x30 || c > 0x39 {
            return None;
        }
        let digit = (c - 0x30) as usize;
        proof {
            assert(d.subrange(0, k - start + 1).drop_last() =~= d.subrange(0, k - start));
            assert(d[k - start] == c);
        }
        if value > (usize::MAX - digit) / 10 {
            proof {
                lemma_digits_value_prefix(d, k - start + 1);
                assert(digits_value(d.subrange(0, k - start + 1)) > usize::MAX) by (nonlinear_arith)
                    requires
                        value > (usize::MAX - digit) / 10,
                        digits_value(d.subrange(0, k - start + 1)) == value * 10 + digit,
                ;
                assert(digits_value(d) > usize::MAX);
            }
            return None;
        }
        value = value * 10 + digit;
        k += 1;
    }
    assert(d.subrange(0, (s@.len() - start) as int) =~= d);
    Some(value)
}

/// A number text's value is at least that of any of its prefixes.
pub proof fn lemma_digits_value_prefix(d: Seq<u8>, j: int)
    requires
        0 <= j <= d.len(),
    ensures
        digits_value(d.subrange(0, j)) <= digits_value(d),
    decreases d.len(),
{
    if j < d.len() {
        assert(d.drop_last() =~= d.subrange(0, d.len() - 1));
        assert(d.subrange(0, d.len() - 1).subrange(0, j) =~= d.subrange(0, j));
        lemma_digits_value_prefix(d.drop_last(), j);
    } else {
        assert(d.subrange(0, j) =~= d);
    }
}

/// The first line of a text: what comes before the first line feed, without
/// a carriage return just before that line feed.
pub open spec fn first_line(s: Seq<u8>) -> Seq<u8> {
    let raw = before_newline(s);
    if raw.len() < s.len() {
        strip_cr(raw)
    } else {
        raw
    }
}

/// The text before the first line feed.
pub open spec fn before_newline(s: Seq<u8>) -> Seq<u8>
    decreases s.len(),
{
    if s.len() == 0 || s[0] == 0x0a {
        Seq::empty()
    } else {
        seq![s[0]] + before_newline(s.drop_first())
    }
}

/// The first line of a text.
pub fn take_first_line(s: &[u8]) -> (r: Vec<u8>)
    ensures
        r@ == first_line(s@),
{
    let mut line: Vec<u8> = Vec::new();
    let mut k: usize = 0;
    while k < s.len() && s[k] != 0x0a
        invariant
            k <= s@.len(),
            forall|m: int| 0 <= m < k ==> s@[m] != 0x0a,
            line@ == s@.subrange(0, k as int),
        decreases s@.len() - k,
    {
        line.push(s[k]);
        k += 1;
        assert(line@ =~= s@.subrange(0, k as int));
    }
    proof {
        lemma_before_newline(s@, k as int);
    }
    if k < s.len() && line.len() > 0 && line[line.len() - 1] == 0x0d {
        line.pop();
    }
    line
}

proof fn lemma_before_newline(s: Seq<u8>, k: int)
    requires
        0 <= k <= s.len(),
        forall|m: int| 0 <= m < k ==> s[m] != 0x0a,
        k == s.len() || s[k] == 0x0a,
    ensures
        before_newline(s) == s.subrange(0, k),
    decreases s.len(),
{
    if s.len() == 0 || s[0] == 0x0a {
        assert(s.subrange(0, k) =~= Seq::<u8>::empty());
    } else {
        lemma_before_newline(s.drop_first(), k - 1);
        assert(seq![s[0]] + s.drop_first().subrange(0, k - 1) =~= s.subrange(0, k));
    }
}

} // verus!
