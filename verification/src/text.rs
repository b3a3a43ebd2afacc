//! Character-level helpers: decimal digits, `:`-separated fields, line
//! splitting and joining, and trimming.

use vstd::prelude::*;

verus! {

broadcast use vstd::string::group_string_axioms;

// ---------------------------------------------------------------------------
// Digits
// ---------------------------------------------------------------------------

/// The character of the decimal digit `d` (meant for `d < 10`).
pub open spec fn digit_char(d: nat) -> char {
    ((d + 48) as u8) as char
}

/// `c` is one of `'0'..='9'`.
pub open spec fn is_digit(c: char) -> bool {
    '0' <= c && c <= '9'
}

/// The value of a digit character.
pub open spec fn digit_value(c: char) -> nat {
    ((c as u32) - 48) as nat
}

pub open spec fn all_digits(s: Seq<char>) -> bool {
    forall|i: int| 0 <= i < s.len() ==> is_digit(#[trigger] s[i])
}

/// Decimal digits of `n`, most significant first, without leading zeros
/// (`"0"` for zero).
pub open spec fn digits_of(n: nat) -> Seq<char>
    decreases n,
{
    if n < 10 {
        seq![digit_char(n)]
    } else {
        digits_of(n / 10).push(digit_char(n % 10))
    }
}

/// The number that a string of digits denotes (most significant first).
pub open spec fn digits_value(s: Seq<char>) -> nat
    decreases s.len(),
{
    if s.len() == 0 {
        0
    } else {
        digits_value(s.drop_last()) * 10 + digit_value(s.last())
    }
}

pub proof fn lemma_digit_char(d: nat)
    requires
        d < 10,
    ensures
        is_digit(digit_char(d)),
        digit_value(digit_char(d)) == d,
        digit_char(d) != ':',
        digit_char(d) != '\n',
        digit_char(d) != '\r',
        digit_char(d) != '.',
        digit_char(d) != '-',
        digit_char(d) != '+',
{
}

pub proof fn lemma_digits_of(n: nat)
    ensures
        all_digits(digits_of(n)),
        digits_value(digits_of(n)) == n,
        digits_of(n).len() >= 1,
    decreases n,
{
    lemma_digit_char(n % 10);
    if n >= 10 {
        lemma_digits_of(n / 10);
        let s = digits_of(n);
        assert(s.drop_last() =~= digits_of(n / 10));
        assert(s.last() == digit_char(n % 10));
        assert(digits_value(s) == digits_value(s.drop_last()) * 10 + digit_value(s.last()));
        assert(n == (n / 10) * 10 + n % 10);
        assert(digits_value(s.drop_last()) == n / 10);
        assert(digit_value(s.last()) == n % 10);
        assert forall|i: int| 0 <= i < s.len() implies is_digit(#[trigger] s[i]) by {
            if i < s.len() - 1 {
                assert(s[i] == digits_of(n / 10)[i]);
            }
        }
    } else {
        assert(digits_of(n).drop_last() =~= Seq::<char>::empty());
        assert(digits_value(Seq::<char>::empty()) == 0);
        assert(digits_value(digits_of(n)) == digits_value(digits_of(n).drop_last()) * 10
            + digit_value(digit_char(n)));
    }
}

/// A string of digits has no separator characters in it.
pub proof fn lemma_digits_have_no_separators(s: Seq<char>)
    requires
        all_digits(s),
    ensures
        !s.contains(':'),
        !s.contains('\n'),
        !s.contains('.'),
        s.len() > 0 ==> s.last() != '\r',
        s.len() > 0 ==> s[0] != '-' && s[0] != '+',
{
    if s.contains(':') {
        let i = choose|i: int| 0 <= i < s.len() && s[i] == ':';
        assert(is_digit(s[i]));
    }
    if s.contains('\n') {
        let i = choose|i: int| 0 <= i < s.len() && s[i] == '\n';
        assert(is_digit(s[i]));
    }
    if s.contains('.') {
        let i = choose|i: int| 0 <= i < s.len() && s[i] == '.';
        assert(is_digit(s[i]));
    }
    if s.len() > 0 {
        assert(is_digit(s[s.len() - 1]));
        assert(is_digit(s[0]));
    }
}

/// Appending a digit multiplies the value by ten and adds the digit.
pub proof fn lemma_digits_value_push(s: Seq<char>, c: char)
    ensures
        digits_value(s.push(c)) == digits_value(s) * 10 + digit_value(c),
{
    assert(s.push(c).drop_last() =~= s);
}

/// The character for a digit below ten.
pub fn digit_to_char(d: u64) -> (c: char)
    requires
        d < 10,
    ensures
        c == digit_char(d as nat),
{
    let b: u8 = d as u8;
    (b + 48) as char
}

/// Appends the decimal digits of `n` to `out`.
pub fn push_digits(out: &mut Vec<char>, n: u128)
    ensures
        final(out)@ == old(out)@ + digits_of(n as nat),
    decreases n,
{
    if n < 10 {
        out.push(digit_to_char(n as u64));
        assert(old(out)@.push(digit_char(n as nat)) =~= old(out)@ + seq![digit_char(n as nat)]);
    } else {
        push_digits(out, n / 10);
        out.push(digit_to_char((n % 10) as u64));
        assert(old(out)@ + digits_of((n / 10) as nat).push(digit_char((n % 10) as nat))
            =~= (old(out)@ + digits_of((n / 10) as nat)).push(digit_char((n % 10) as nat)));
    }
}

// ---------------------------------------------------------------------------
// Strings and characters

/// The decimal digits of `n` as a string.
pub fn number_text(n: u64) -> (s: String)
    ensures
        s@ == digits_of(n as nat),
{
    let mut v: Vec<char> = Vec::new();
    push_digits(&mut v, n as u128);
    assert(v@ =~= digits_of(n as nat));
    string_of(&v)
}
// ---------------------------------------------------------------------------

/// `String::push`: appends one character to the string.
#[verifier::external_body]
fn string_push(s: &mut String, c: char)
    ensures
        final(s)@ == old(s)@.push(c),
{
    s.push(c)
}

/// The characters of `s`, in order.
pub fn chars_of(s: &str) -> (v: Vec<char>)
    ensures
        v@ == s@,
{
    let mut v: Vec<char> = Vec::new();
    for c in it: s.chars()
        invariant
            v@ == it.seq().take(it.index() as int),
    {
        v.push(c);
    }
    v
}

/// The string made of `v[lo..hi]`.
pub fn string_of_range(v: &Vec<char>, lo: usize, hi: usize) -> (s: String)
    requires
        lo <= hi <= v.len(),
    ensures
        s@ == v@.subrange(lo as int, hi as int),
{
    let mut s = String::new();
    let mut i = lo;
    while i < hi
        invariant
            lo <= i <= hi <= v.len(),
            s@ == v@.subrange(lo as int, i as int),
        decreases hi - i,
    {
        string_push(&mut s, v[i]);
        assert(v@.subrange(lo as int, i + 1) =~= v@.subrange(lo as int, i as int).push(v@[i as int]));
        i = i + 1;
    }
    s
}

/// The string made of all of `v`.
pub fn string_of(v: &Vec<char>) -> (s: String)
    ensures
        s@ == v@,
{
    let s = string_of_range(v, 0, v.len());
    assert(v@.subrange(0, v@.len() as int) =~= v@);
    s
}

/// Appends the characters of `s` to `out`.
pub fn push_str(out: &mut Vec<char>, s: &str)
    ensures
        final(out)@ == old(out)@ + s@,
{
    let cs = chars_of(s);
    let mut i: usize = 0;
    while i < cs.len()
        invariant
            i <= cs.len(),
            cs@ == s@,
            out@ == old(out)@ + cs@.take(i as int),
        decreases cs.len() - i,
    {
        out.push(cs[i]);
        assert(cs@.take(i + 1) =~= cs@.take(i as int).push(cs@[i as int]));
        i = i + 1;
    }
    assert(cs@.take(cs.len() as int) =~= cs@);
}

// ---------------------------------------------------------------------------
// Searching and `:`-separated fields
// ---------------------------------------------------------------------------

/// Index of the first occurrence of `c` in `s`.
pub open spec fn index_of(s: Seq<char>, c: char) -> Option<nat>
    decreases s.len(),
{
    if s.len() == 0 {
        None
    } else if s[0] == c {
        Some(0)
    } else {
        match index_of(s.drop_first(), c) {
            Some(k) => Some(k + 1),
            None => None,
        }
    }
}

pub proof fn lemma_index_of(s: Seq<char>, c: char)
    ensures
        match index_of(s, c) {
            Some(k) => k < s.len() && s[k as int] == c && forall|j: int|
                0 <= j < k ==> s[j] != c,
            None => forall|j: int| 0 <= j < s.len() ==> s[j] != c,
        },
    decreases s.len(),
{
    if s.len() > 0 && s[0] != c {
        lemma_index_of(s.drop_first(), c);
        match index_of(s.drop_first(), c) {
            Some(k) => {
                assert forall|j: int| 0 <= j < k + 1 implies s[j] != c by {
                    if j > 0 {
                        assert(s[j] == s.drop_first()[j - 1]);
                    }
                }
            },
            None => {
                assert forall|j: int| 0 <= j < s.len() implies s[j] != c by {
                    if j > 0 {
                        assert(s[j] == s.drop_first()[j - 1]);
                    }
                }
            },
        }
    }
}

/// The first occurrence is determined by the characters before it.
pub proof fn lemma_index_of_is(s: Seq<char>, c: char, k: int)
    requires
        0 <= k <= s.len(),
        forall|j: int| 0 <= j < k ==> s[j] != c,
        k < s.len() ==> s[k] == c,
    ensures
        index_of(s, c) == (if k < s.len() {
            Some(k as nat)
        } else {
            None::<nat>
        }),
{
    lemma_index_of(s, c);
}

/// No occurrence of `c` in `a` puts the first one of `a + [c] + b` right after `a`.
pub proof fn lemma_index_of_after(a: Seq<char>, c: char, b: Seq<char>)
    requires
        !a.contains(c),
    ensures
        index_of(a + seq![c] + b, c) == Some(a.len()),
{
    let s = a + seq![c] + b;
    assert forall|j: int| 0 <= j < a.len() implies s[j] != c by {
        assert(s[j] == a[j]);
        if a[j] == c {
            assert(a.contains(c));
        }
    }
    assert(s[a.len() as int] == c);
    lemma_index_of_is(s, c, a.len() as int);
}

pub proof fn lemma_index_of_absent(s: Seq<char>, c: char)
    requires
        !s.contains(c),
    ensures
        index_of(s, c) is None,
{
    assert forall|j: int| 0 <= j < s.len() implies s[j] != c by {
        if s[j] == c {
            assert(s.contains(c));
        }
    }
    lemma_index_of_is(s, c, s.len() as int);
}

/// The part of `s` before the first `c` (all of `s` where there is none).
pub open spec fn before_char(s: Seq<char>, c: char) -> Seq<char> {
    match index_of(s, c) {
        Some(k) => s.take(k as int),
        None => s,
    }
}

/// The second piece of `line` split at `:`; there is one only where the
/// line holds a `:`.
pub open spec fn field_of(line: Seq<char>) -> Option<Seq<char>> {
    match index_of(line, ':') {
        Some(k) => Some(before_char(line.skip(k + 1int), ':')),
        None => None,
    }
}

/// The first piece of `line` split at `:`.
pub open spec fn first_piece(line: Seq<char>) -> Seq<char> {
    before_char(line, ':')
}

/// `label:value` with neither part holding a `:` splits back into its parts.
pub proof fn lemma_field_of_labeled(label: Seq<char>, value: Seq<char>)
    requires
        !label.contains(':'),
        !value.contains(':'),
    ensures
        field_of(label + seq![':'] + value) == Some(value),
        first_piece(label + seq![':'] + value) == label,
{
    let line = label + seq![':'] + value;
    lemma_index_of_after(label, ':', value);
    assert(line.skip(label.len() + 1int) =~= value);
    lemma_index_of_absent(value, ':');
    assert(line.take(label.len() as int) =~= label);
}

/// The index of the first `c` in `v[from..]`, counted from the start of `v`.
pub fn find_char(v: &Vec<char>, from: usize, c: char) -> (r: Option<usize>)
    requires
        from <= v.len(),
    ensures
        match r {
            Some(k) => from <= k < v.len() && index_of(v@.skip(from as int), c) == Some(
                (k - from) as nat,
            ),
            None => index_of(v@.skip(from as int), c) is None,
        },
{
    let mut i = from;
    while i < v.len()
        invariant
            from <= i <= v.len(),
            forall|j: int| from <= j < i ==> v@[j] != c,
        decreases v.len() - i,
    {
        if v[i] == c {
            proof {
                lemma_index_of_is(v@.skip(from as int), c, i - from);
            }
            return Some(i);
        }
        i = i + 1;
    }
    proof {
        lemma_index_of_is(v@.skip(from as int), c, v@.len() - from);
    }
    None
}

/// The second `:`-separated piece of `line`, where the line holds a `:`.
pub fn split_field(line: &str) -> (r: Option<String>)
    ensures
        match r {
            Some(f) => field_of(line@) == Some(f@),
            None => field_of(line@) is None,
        },
{
    let cs = chars_of(line);
    assert(cs@.skip(0) =~= cs@);
    match find_char(&cs, 0, ':') {
        None => None,
        Some(k) => {
            let ghost rest = cs@.skip(k + 1);
            let end = match find_char(&cs, k + 1, ':') {
                Some(e) => {
                    assert(before_char(rest, ':') == rest.take(e - (k + 1)));
                    assert(rest.take(e - (k + 1)) =~= cs@.subrange(k + 1, e as int));
                    e
                },
                None => {
                    assert(before_char(rest, ':') == rest);
                    assert(rest =~= cs@.subrange(k + 1, cs.len() as int));
                    cs.len()
                },
            };
            let f = string_of_range(&cs, k + 1, end);
            assert(field_of(cs@) == Some(before_char(rest, ':')));
            Some(f)
        },
    }
}

/// The first `:`-separated piece of `line`.
pub fn split_first(line: &str) -> (r: String)
    ensures
        r@ == first_piece(line@),
{
    let cs = chars_of(line);
    assert(cs@.skip(0) =~= cs@);
    let end = match find_char(&cs, 0, ':') {
        Some(e) => e,
        None => cs.len(),
    };
    let r = string_of_range(&cs, 0, end);
    assert(r@ =~= first_piece(cs@));
    r
}

// ---------------------------------------------------------------------------
// Lines
// ---------------------------------------------------------------------------

/// `line` without one trailing carriage return.
pub open spec fn strip_cr(line: Seq<char>) -> Seq<char> {
    if line.len() > 0 && line.last() == '\r' {
        line.drop_last()
    } else {
        line
    }
}

/// The lines of a text as a buffered reader reads them: split after each
/// `\n`, the `\n` and a `\r` right before it removed, and no empty line after
/// a final `\n`.
pub open spec fn text_lines(t: Seq<char>) -> Seq<Seq<char>>
    decreases t.len(),
{
    if t.len() == 0 {
        seq![]
    } else {
        match index_of(t, '\n') {
            None => seq![t],
            Some(p) => {
                proof {
                    lemma_index_of(t, '\n');
                }
                seq![strip_cr(t.take(p as int))] + text_lines(t.skip(p + 1int))
            },
        }
    }
}

/// Lines joined with `\n` between them.
pub open spec fn join_lines(ls: Seq<Seq<char>>) -> Seq<char>
    decreases ls.len(),
{
    if ls.len() == 0 {
        seq![]
    } else if ls.len() == 1 {
        ls[0]
    } else {
        ls[0] + seq!['\n'] + join_lines(ls.drop_first())
    }
}

/// The views of a sequence of strings.
pub open spec fn views(v: Seq<String>) -> Seq<Seq<char>> {
    v.map_values(|s: String| s@)
}

pub proof fn lemma_join_lines_push(ls: Seq<Seq<char>>, l: Seq<char>)
    requires
        ls.len() >= 1,
    ensures
        join_lines(ls.push(l)) == join_lines(ls) + seq!['\n'] + l,
    decreases ls.len(),
{
    if ls.len() == 1 {
        assert(ls.push(l).drop_first() =~= seq![l]);
        assert(join_lines(seq![l]) == l);
        assert(join_lines(ls) == ls[0]);
        assert(ls.push(l)[0] == ls[0]);
    } else {
        let rest = ls.drop_first();
        lemma_join_lines_push(rest, l);
        assert(ls.push(l).drop_first() =~= rest.push(l));
        assert(ls.push(l)[0] == ls[0]);
        assert(join_lines(ls.push(l)) == ls[0] + seq!['\n'] + join_lines(rest.push(l)));
        assert(ls[0] + seq!['\n'] + (join_lines(rest) + seq!['\n'] + l) =~= (ls[0] + seq!['\n']
            + join_lines(rest)) + seq!['\n'] + l);
    }
}

/// A line that can be written and read back unchanged: no `\n` in it and no
/// `\r` at its end.
pub open spec fn plain_line(l: Seq<char>) -> bool {
    &&& !l.contains('\n')
    &&& (l.len() > 0 ==> l.last() != '\r')
}

/// Reading the lines of joined plain lines gives them back, where the last
/// one is not empty.
pub proof fn lemma_text_lines_join(ls: Seq<Seq<char>>)
    requires
        ls.len() >= 1,
        forall|i: int| 0 <= i < ls.len() ==> plain_line(#[trigger] ls[i]),
        ls.last().len() > 0,
    ensures
        text_lines(join_lines(ls)) == ls,
    decreases ls.len(),
{
    if ls.len() == 1 {
        assert(plain_line(ls[0]));
        lemma_index_of_absent(ls[0], '\n');
        assert(text_lines(join_lines(ls)) =~= ls);
    } else {
        let rest = ls.drop_first();
        assert forall|i: int| 0 <= i < rest.len() implies plain_line(#[trigger] rest[i]) by {
            assert(rest[i] == ls[i + 1]);
        }
        lemma_text_lines_join(rest);
        assert(plain_line(ls[0]));
        let t = join_lines(ls);
        assert(t == ls[0] + seq!['\n'] + join_lines(rest));
        lemma_index_of_after(ls[0], '\n', join_lines(rest));
        assert(t.take(ls[0].len() as int) =~= ls[0]);
        assert(t.skip(ls[0].len() + 1int) =~= join_lines(rest));
        assert(text_lines(t) =~= seq![ls[0]] + rest);
        assert(seq![ls[0]] + rest =~= ls);
    }
}

/// Splits a text into lines as a buffered reader does.
pub fn split_lines(text: &str) -> (lines: Vec<String>)
    ensures
        views(lines@) == text_lines(text@),
{
    let cs = chars_of(text);
    let mut lines: Vec<String> = Vec::new();
    let mut start: usize = 0;
    assert(cs@.skip(0) =~= cs@);
    while start < cs.len()
        invariant
            start <= cs.len(),
            cs@ == text@,
            views(lines@) + text_lines(cs@.skip(start as int)) == text_lines(cs@),
        decreases cs.len() - start,
    {
        let ghost rest = cs@.skip(start as int);
        let ghost before = lines@;
        match find_char(&cs, start, '\n') {
            None => {
                let l = string_of_range(&cs, start, cs.len());
                assert(l@ =~= rest);
                lines.push(l);
                assert(views(lines@) =~= views(before).push(l@));
                assert(cs@.skip(cs.len() as int) =~= Seq::<char>::empty());
                assert(text_lines(rest) == seq![rest]);
                assert(views(before) + seq![rest] =~= views(before).push(rest));
                start = cs.len();
            },
            Some(p) => {
                let mut end = p;
                if end > start && cs[end - 1] == '\r' {
                    end = end - 1;
                }
                let l = string_of_range(&cs, start, end);
                assert(l@ =~= strip_cr(rest.take(p - start)));
                lines.push(l);
                assert(rest.skip(p - start + 1) =~= cs@.skip(p + 1));
                assert(views(lines@) =~= views(before).push(l@));
                assert(views(before) + text_lines(rest) =~= views(before).push(l@)
                    + text_lines(cs@.skip(p + 1)));
                start = p + 1;
            },
        }
    }
    assert(cs@.skip(start as int) =~= Seq::<char>::empty());
    assert(views(lines@) + Seq::<Seq<char>>::empty() =~= views(lines@));
    lines
}

// ---------------------------------------------------------------------------
// Trimming
// ---------------------------------------------------------------------------

/// Characters with the Unicode `White_Space` property.
pub open spec fn is_space(c: char) -> bool {
    let n = c as u32;
    ||| 0x09 <= n <= 0x0d
    ||| n == 0x20
    ||| n == 0x85
    ||| n == 0xa0
    ||| n == 0x1680
    ||| 0x2000 <= n <= 0x200a
    ||| n == 0x2028
    ||| n == 0x2029
    ||| n == 0x202f
    ||| n == 0x205f
    ||| n == 0x3000
}

/// The characters that a trim removes: white space, or double quotes.
pub open spec fn trimmed_class(quotes: bool, c: char) -> bool {
    if quotes {
        c == '"'
    } else {
        is_space(c)
    }
}

/// `s` without its leading characters of the class.
pub open spec fn strip_leading(s: Seq<char>, quotes: bool) -> Seq<char>
    decreases s.len(),
{
    if s.len() > 0 && trimmed_class(quotes, s[0]) {
        strip_leading(s.drop_first(), quotes)
    } else {
        s
    }
}

/// `s` without its trailing characters of the class.
pub open spec fn strip_trailing(s: Seq<char>, quotes: bool) -> Seq<char>
    decreases s.len(),
{
    if s.len() > 0 && trimmed_class(quotes, s.last()) {
        strip_trailing(s.drop_last(), quotes)
    } else {
        s
    }
}

/// `s` without leading and trailing characters of the class.
pub open spec fn trim_class(s: Seq<char>, quotes: bool) -> Seq<char> {
    strip_trailing(strip_leading(s, quotes), quotes)
}

fn in_trimmed_class(quotes: bool, c: char) -> (b: bool)
    ensures
        b == trimmed_class(quotes, c),
{
    if quotes {
        c == '"'
    } else {
        let n = c as u32;
        (0x09 <= n && n <= 0x0d) || n == 0x20 || n == 0x85 || n == 0xa0 || n == 0x1680 || (0x2000
            <= n && n <= 0x200a) || n == 0x2028 || n == 0x2029 || n == 0x202f || n == 0x205f || n
            == 0x3000
    }
}

/// Removes leading and trailing white space (`quotes == false`) or double
/// quotes (`quotes == true`).
pub fn trim_chars(v: &Vec<char>, quotes: bool) -> (r: Vec<char>)
    ensures
        r@ == trim_class(v@, quotes),
{
    let mut lo: usize = 0;
    assert(v@.subrange(0, v.len() as int) =~= v@);
    while lo < v.len() && in_trimmed_class(quotes, v[lo])
        invariant
            lo <= v.len(),
            strip_leading(v@, quotes) == strip_leading(v@.subrange(lo as int, v.len() as int), quotes),
        decreases v.len() - lo,
    {
        assert(v@.subrange(lo as int, v.len() as int).drop_first() =~= v@.subrange(
            lo + 1,
            v.len() as int,
        ));
        lo = lo + 1;
    }
    let ghost lead = v@.subrange(lo as int, v.len() as int);
    assert(strip_leading(v@, quotes) == lead);
    let mut hi: usize = v.len();
    assert(lead.subrange(0, lead.len() as int) =~= lead);
    while hi > lo && in_trimmed_class(quotes, v[hi - 1])
        invariant
            lo <= hi <= v.len(),
            lead == v@.subrange(lo as int, v.len() as int),
            strip_trailing(lead, quotes) == strip_trailing(v@.subrange(lo as int, hi as int), quotes),
        decreases hi,
    {
        assert(v@.subrange(lo as int, hi as int).drop_last() =~= v@.subrange(
            lo as int,
            hi - 1,
        ));
        hi = hi - 1;
    }
    let mut r: Vec<char> = Vec::new();
    let mut i = lo;
    while i < hi
        invariant
            lo <= i <= hi <= v.len(),
            r@ == v@.subrange(lo as int, i as int),
        decreases hi - i,
    {
        r.push(v[i]);
        assert(v@.subrange(lo as int, i + 1) =~= v@.subrange(lo as int, i as int).push(v@[i as int]));
        i = i + 1;
    }
    r
}

} // verus!
