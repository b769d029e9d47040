use vstd::prelude::*;
use vstd::std_specs::iter::IteratorSpec;

verus! {

// ---------------------------------------------------------------------------
// Characters and decimal numbers
// ---------------------------------------------------------------------------

pub open spec fn is_digit(c: char) -> bool {
    '0' <= c && c <= '9'
}

pub open spec fn digit_value(c: char) -> nat {
    (c as u32 - 48) as nat
}

pub open spec fn digit_char(d: nat) -> char {
    if d == 0 {
        '0'
    } else if d == 1 {
        '1'
    } else if d == 2 {
        '2'
    } else if d == 3 {
        '3'
    } else if d == 4 {
        '4'
    } else if d == 5 {
        '5'
    } else if d == 6 {
        '6'
    } else if d == 7 {
        '7'
    } else if d == 8 {
        '8'
    } else {
        '9'
    }
}

/// The canonical decimal text of `n`: no sign, no leading zero.
pub open spec fn decimal(n: nat) -> Seq<char>
    decreases n,
{
    if n < 10 {
        seq![digit_char(n)]
    } else {
        decimal(n / 10).push(digit_char(n % 10))
    }
}

/// The value of a run of decimal digits.
pub open spec fn digits_value(s: Seq<char>) -> nat
    decreases s.len(),
{
    if s.len() == 0 {
        0
    } else {
        digits_value(s.drop_last()) * 10 + digit_value(s.last())
    }
}

/// The first position at or after `i` that does not hold a digit.
pub open spec fn digit_run_end(t: Seq<char>, i: int) -> int
    decreases t.len() - i,
{
    if 0 <= i < t.len() && is_digit(t[i]) {
        digit_run_end(t, i + 1)
    } else {
        i
    }
}

/// Reads the number that starts at `i`: its value and the position after it.
pub open spec fn read_number(t: Seq<char>, i: int) -> Option<(u32, int)> {
    let j = digit_run_end(t, i);
    if j > i && digits_value(t.subrange(i, j)) <= u32::MAX {
        Some((digits_value(t.subrange(i, j)) as u32, j))
    } else {
        None
    }
}

pub proof fn lemma_digit_char(d: nat)
    requires
        d < 10,
    ensures
        is_digit(digit_char(d)),
        digit_value(digit_char(d)) == d,
{
}

pub proof fn lemma_decimal_digits(n: nat)
    ensures
        decimal(n).len() >= 1,
        forall|k: int| 0 <= k < decimal(n).len() ==> is_digit(#[trigger] decimal(n)[k]),
        digits_value(decimal(n)) == n,
    decreases n,
{
    if n < 10 {
        lemma_digit_char(n);
        assert(decimal(n).drop_last() =~= Seq::<char>::empty());
        assert(decimal(n).last() == digit_char(n));
        assert(digits_value(Seq::<char>::empty()) == 0);
    } else {
        lemma_decimal_digits(n / 10);
        lemma_digit_char(n % 10);
        assert(decimal(n).drop_last() =~= decimal(n / 10));
        vstd::arithmetic::div_mod::lemma_fundamental_div_mod(n as int, 10);
        assert(decimal(n).last() == digit_char(n % 10));
        assert(digits_value(decimal(n)) == digits_value(decimal(n / 10)) * 10 + (n % 10));
        assert forall|k: int| 0 <= k < decimal(n).len() implies is_digit(#[trigger] decimal(n)[k]) by {
            if k < decimal(n / 10).len() {
                assert(decimal(n)[k] == decimal(n / 10)[k]);
            }
        }
    }
}

proof fn lemma_digit_run(t: Seq<char>, i: int, j: int)
    requires
        0 <= i <= j <= t.len(),
        forall|k: int| i <= k < j ==> is_digit(#[trigger] t[k]),
    ensures
        digit_run_end(t, i) == digit_run_end(t, j),
    decreases j - i,
{
    if i < j {
        lemma_digit_run(t, i + 1, j);
    }
}

proof fn lemma_digit_run_bounds(t: Seq<char>, i: int)
    requires
        0 <= i <= t.len(),
    ensures
        i <= digit_run_end(t, i) <= t.len(),
    decreases t.len() - i,
{
    if i < t.len() && is_digit(t[i]) {
        lemma_digit_run_bounds(t, i + 1);
    }
}

/// A number written in decimal, followed by a character that is no digit,
/// reads back as itself.
pub proof fn lemma_read_decimal(t: Seq<char>, i: int, n: u32)
    requires
        0 <= i,
        i + decimal(n as nat).len() < t.len(),
        t.subrange(i, i + decimal(n as nat).len()) == decimal(n as nat),
        !is_digit(t[i + decimal(n as nat).len()]),
    ensures
        read_number(t, i) == Some((n, i + decimal(n as nat).len())),
{
    let d = decimal(n as nat);
    lemma_decimal_digits(n as nat);
    let j = i + d.len();
    assert forall|k: int| i <= k < j implies is_digit(#[trigger] t[k]) by {
        assert(t[k] == t.subrange(i, j)[k - i]);
    }
    lemma_digit_run(t, i, j);
}

// ---------------------------------------------------------------------------
// Quoted text
// ---------------------------------------------------------------------------

pub open spec fn hex_char(d: nat) -> char {
    if d < 10 {
        digit_char(d)
    } else if d == 10 {
        'a'
    } else if d == 11 {
        'b'
    } else if d == 12 {
        'c'
    } else if d == 13 {
        'd'
    } else if d == 14 {
        'e'
    } else {
        'f'
    }
}

pub open spec fn hex_value(c: char) -> Option<nat> {
    if is_digit(c) {
        Some(digit_value(c))
    } else if 'a' <= c && c <= 'f' {
        Some((c as u32 - 87) as nat)
    } else {
        None
    }
}

/// How one character is written between quotes.
pub open spec fn escape_char(c: char) -> Seq<char> {
    if c == '"' {
        seq!['\\', '"']
    } else if c == '\\' {
        seq!['\\', '\\']
    } else if c == '\n' {
        seq!['\\', 'n']
    } else if c == '\r' {
        seq!['\\', 'r']
    } else if c == '\t' {
        seq!['\\', 't']
    } else if c == '\x08' {
        seq!['\\', 'b']
    } else if c == '\x0c' {
        seq!['\\', 'f']
    } else if (c as u32) < 32 {
        seq!['\\', 'u', '0', '0', hex_char((c as u32 / 16) as nat), hex_char((c as u32 % 16) as nat)]
    } else {
        seq![c]
    }
}

/// How a text is written between quotes.
pub open spec fn escape(s: Seq<char>) -> Seq<char>
    decreases s.len(),
{
    if s.len() == 0 {
        Seq::empty()
    } else {
        escape_char(s[0]) + escape(s.skip(1))
    }
}

/// Reads the escape sequence that starts with the backslash at `i`.
pub open spec fn read_escape(t: Seq<char>, i: int) -> Option<(char, int)> {
    if i + 1 >= t.len() {
        None
    } else {
        let e = t[i + 1];
        if e == '"' {
            Some(('"', i + 2))
        } else if e == '\\' {
            Some(('\\', i + 2))
        } else if e == 'n' {
            Some(('\n', i + 2))
        } else if e == 'r' {
            Some(('\r', i + 2))
        } else if e == 't' {
            Some(('\t', i + 2))
        } else if e == 'b' {
            Some(('\x08', i + 2))
        } else if e == 'f' {
            Some(('\x0c', i + 2))
        } else if e == 'u' && t.len() - i > 5 && t[i + 2] == '0' && t[i + 3] == '0' && hex_value(
            t[i + 4],
        ) is Some && hex_value(t[i + 5]) is Some && hex_value(t[i + 4]).unwrap() < 2 {
            let v = hex_value(t[i + 4]).unwrap() * 16 + hex_value(t[i + 5]).unwrap();
            Some((((v as u8) as char), i + 6))
        } else {
            None
        }
    }
}

/// Reads quoted text from `i` (just after the opening quote) up to and
/// including the closing quote: the text and the position after the quote.
pub open spec fn read_quoted(t: Seq<char>, i: int) -> Option<(Seq<char>, int)>
    decreases t.len() - i,
{
    if i < 0 || i >= t.len() {
        None
    } else if t[i] == '"' {
        Some((Seq::empty(), i + 1))
    } else if t[i] == '\\' {
        match read_escape(t, i) {
            Some((c, j)) => match read_quoted(t, j) {
                Some((s, k)) => Some((seq![c] + s, k)),
                None => None,
            },
            None => None,
        }
    } else {
        match read_quoted(t, i + 1) {
            Some((s, k)) => Some((seq![t[i]] + s, k)),
            None => None,
        }
    }
}

proof fn lemma_escape_char_read(t: Seq<char>, i: int, c: char)
    requires
        0 <= i,
        i + escape_char(c).len() <= t.len(),
        t.subrange(i, i + escape_char(c).len()) == escape_char(c),
    ensures
        escape_char(c).len() >= 1,
        t[i] != '"',
        escape_char(c).len() == 1 ==> t[i] == c && t[i] != '\\',
        escape_char(c).len() > 1 ==> t[i] == '\\' && read_escape(t, i) == Some(
            (c, i + escape_char(c).len()),
        ),
{
    let e = escape_char(c);
    assert forall|k: int| 0 <= k < e.len() implies t[i + k] == e[k] by {
        assert(t.subrange(i, i + e.len())[k] == t[i + k]);
    }
    assert(t[i] == t.subrange(i, i + e.len())[0]);
    if (c as u32) < 32 && c != '\n' && c != '\r' && c != '\t' && c != '\x08' && c != '\x0c' {
        let v = c as u32;
        assert(v / 16 < 2);
        lemma_digit_char((v / 16) as nat);
        assert(hex_value(t[i + 4]) == Some((v / 16) as nat));
        let lo = (v % 16) as nat;
        if lo < 10 {
            lemma_digit_char(lo);
        }
        assert(hex_value(t[i + 5]) == Some(lo));
        assert(((v / 16) * 16 + v % 16) as u8 as char == c);
    }
}

proof fn lemma_escape_split(s: Seq<char>)
    requires
        s.len() > 0,
    ensures
        escape(s) == escape_char(s[0]) + escape(s.skip(1)),
{
}

/// Quoted text as `escape` writes it, followed by a quote, reads back as itself.
pub proof fn lemma_read_escaped(t: Seq<char>, i: int, s: Seq<char>)
    requires
        0 <= i,
        i + escape(s).len() < t.len(),
        t.subrange(i, i + escape(s).len()) == escape(s),
        t[i + escape(s).len()] == '"',
    ensures
        read_quoted(t, i) == Some((s, i + escape(s).len() + 1)),
    decreases s.len(),
{
    if s.len() == 0 {
    } else {
        let c = s[0];
        let rest = s.skip(1);
        let ec = escape_char(c);
        lemma_escape_split(s);
        let j = i + ec.len();
        assert(t.subrange(i, j) == t.subrange(i, i + escape(s).len()).subrange(0, ec.len() as int));
        assert(t.subrange(i, j) =~= ec);
        lemma_escape_char_read(t, i, c);
        assert(escape(s).subrange(ec.len() as int, escape(s).len() as int) =~= escape(rest));
        assert(t.subrange(j, j + escape(rest).len()) =~= t.subrange(
            i,
            i + escape(s).len(),
        ).subrange(ec.len() as int, escape(s).len() as int));
        lemma_read_escaped(t, j, rest);
        assert(seq![c] + rest =~= s);
    }
}

proof fn lemma_digits_value_prefix(s: Seq<char>, k: int)
    requires
        0 <= k <= s.len(),
    ensures
        digits_value(s.take(k)) <= digits_value(s),
    decreases s.len(),
{
    if k < s.len() {
        assert(s.drop_last().take(k) =~= s.take(k));
        lemma_digits_value_prefix(s.drop_last(), k);
    } else {
        assert(s.take(k) =~= s);
    }
}

pub proof fn lemma_escape_concat(a: Seq<char>, b: Seq<char>)
    ensures
        escape(a + b) == escape(a) + escape(b),
    decreases a.len(),
{
    if a.len() == 0 {
        assert(a + b =~= b);
    } else {
        assert((a + b).skip(1) =~= a.skip(1) + b);
        lemma_escape_concat(a.skip(1), b);
        assert(escape(a + b) =~= escape_char(a[0]) + escape(a.skip(1) + b));
    }
}

// ---------------------------------------------------------------------------
// Executable reading and writing
// ---------------------------------------------------------------------------

/// The characters of `s`, in order.
pub fn chars_of(s: &str) -> (r: Vec<char>)
    ensures
        r@ == s@,
{
    broadcast use vstd::string::group_string_axioms;

    let mut it = s.chars();
    let mut out: Vec<char> = Vec::new();
    loop
        invariant
            it.obeys_prophetic_iter_laws(),
            out@ + it.remaining() == s@,
        decreases s@.len() - out@.len(),
    {
        match it.next() {
            Some(c) => {
                out.push(c);
                proof {
                    assert(out@ + it.remaining() =~= s@);
                }
            },
            None => {
                assert(out@ =~= s@);
                return out;
            },
        }
    }
}

/// Relies on `String::push`: appends one character.
#[verifier::external_body]
pub(crate) fn push_char(s: &mut String, c: char)
    ensures
        final(s)@ == old(s)@.push(c),
{
    s.push(c)
}

/// The text made of the characters of `v`, in order.
pub fn string_of(v: &Vec<char>) -> (r: String)
    ensures
        r@ == v@,
{
    let mut out = String::new();
    let mut i: usize = 0;
    while i < v.len()
        invariant
            0 <= i <= v.len(),
            out@ == v@.take(i as int),
        decreases v.len() - i,
    {
        push_char(&mut out, v[i]);
        assert(out@ =~= v@.take(i + 1));
        i = i + 1;
    }
    assert(v@.take(v.len() as int) =~= v@);
    out
}

pub fn is_digit_char(c: char) -> (r: bool)
    ensures
        r == is_digit(c),
{
    '0' <= c && c <= '9'
}

fn digit_to_char(d: u32) -> (c: char)
    requires
        d < 10,
    ensures
        c == digit_char(d as nat),
{
    if d == 0 {
        '0'
    } else if d == 1 {
        '1'
    } else if d == 2 {
        '2'
    } else if d == 3 {
        '3'
    } else if d == 4 {
        '4'
    } else if d == 5 {
        '5'
    } else if d == 6 {
        '6'
    } else if d == 7 {
        '7'
    } else if d == 8 {
        '8'
    } else {
        '9'
    }
}

fn hex_to_char(d: u32) -> (c: char)
    requires
        d < 16,
    ensures
        c == hex_char(d as nat),
{
    if d < 10 {
        digit_to_char(d)
    } else if d == 10 {
        'a'
    } else if d == 11 {
        'b'
    } else if d == 12 {
        'c'
    } else if d == 13 {
        'd'
    } else if d == 14 {
        'e'
    } else {
        'f'
    }
}

/// Appends the decimal text of `n`.
pub fn write_decimal(out: &mut String, n: u32)
    ensures
        final(out)@ == old(out)@ + decimal(n as nat),
    decreases n,
{
    if n >= 10 {
        write_decimal(out, n / 10);
    }
    push_char(out, digit_to_char(n % 10));
    proof {
        if n >= 10 {
            assert(final(out)@ =~= old(out)@ + decimal(n as nat));
        } else {
            assert(final(out)@ =~= old(out)@ + decimal(n as nat));
        }
    }
}

/// Appends the quoted form of `s`, without the quotes.
pub fn write_escaped(out: &mut String, s: &str)
    ensures
        final(out)@ == old(out)@ + escape(s@),
{
    let cs = chars_of(s);
    let ghost start = out@;
    let mut i: usize = 0;
    while i < cs.len()
        invariant
            cs@ == s@,
            0 <= i <= cs.len(),
            out@ == start + escape(cs@.take(i as int)),
        decreases cs.len() - i,
    {
        let c = cs[i];
        let ghost before = out@;
        if c == '"' {
            push_char(out, '\\');
            push_char(out, '"');
        } else if c == '\\' {
            push_char(out, '\\');
            push_char(out, '\\');
        } else if c == '\n' {
            push_char(out, '\\');
            push_char(out, 'n');
        } else if c == '\r' {
            push_char(out, '\\');
            push_char(out, 'r');
        } else if c == '\t' {
            push_char(out, '\\');
            push_char(out, 't');
        } else if c == '\x08' {
            push_char(out, '\\');
            push_char(out, 'b');
        } else if c == '\x0c' {
            push_char(out, '\\');
            push_char(out, 'f');
        } else if (c as u32) < 32 {
            push_char(out, '\\');
            push_char(out, 'u');
            push_char(out, '0');
            push_char(out, '0');
            push_char(out, hex_to_char(c as u32 / 16));
            push_char(out, hex_to_char(c as u32 % 16));
        } else {
            push_char(out, c);
        }
        proof {
            assert(out@ =~= before + escape_char(c));
            assert(escape(seq![c]) =~= escape_char(c)) by {
                assert(seq![c].skip(1) =~= Seq::<char>::empty());
                assert(escape(seq![c].skip(1)) == Seq::<char>::empty());
                assert(escape(seq![c]) == escape_char(seq![c][0]) + escape(seq![c].skip(1)));
            }
            lemma_escape_concat(cs@.take(i as int), seq![c]);
            assert(cs@.take(i as int) + seq![c] =~= cs@.take(i + 1));
        }
        i = i + 1;
    }
    assert(cs@.take(i as int) =~= s@);
}

/// Reads the number that starts at `i`, as `read_number` says.
pub fn read_number_at(t: &Vec<char>, i: usize) -> (r: Option<(u32, usize)>)
    requires
        i <= t.len(),
    ensures
        match read_number(t@, i as int) {
            Some((n, j)) => r is Some && r.unwrap().0 == n && r.unwrap().1 as int == j,
            None => r is None,
        },
        r is Some ==> r.unwrap().1 <= t.len(),
{
    let mut j: usize = i;
    let mut value: u32 = 0;
    while j < t.len() && is_digit_char(t[j])
        invariant
            i <= j <= t.len(),
            forall|k: int| i <= k < j ==> is_digit(#[trigger] t@[k]),
            value as nat == digits_value(t@.subrange(i as int, j as int)),
        decreases t.len() - j,
    {
        let d = t[j] as u32 - 48;
        proof {
            let p = t@.subrange(i as int, j + 1);
            assert(p.drop_last() =~= t@.subrange(i as int, j as int));
            assert(digits_value(p) == value * 10 + d);
        }
        if value > 429496729 || (value == 429496729 && d > 5) {
            proof {
                lemma_digit_run(t@, i as int, j + 1);
                lemma_digit_run_bounds(t@, j + 1);
                let e = digit_run_end(t@, i as int);
                let run = t@.subrange(i as int, e);
                assert(run.take(j + 1 - i) =~= t@.subrange(i as int, j + 1));
                lemma_digits_value_prefix(run, j + 1 - i);
            }
            return None;
        }
        value = value * 10 + d;
        j = j + 1;
    }
    proof {
        lemma_digit_run(t@, i as int, j as int);
    }
    if j == i {
        None
    } else {
        Some((value, j))
    }
}

/// `lit` stands in `t` at `i`: the position after it.
pub open spec fn expect(t: Seq<char>, i: int, lit: Seq<char>) -> Option<int> {
    if 0 <= i && i + lit.len() <= t.len() && t.subrange(i, i + lit.len()) == lit {
        Some(i + lit.len())
    } else {
        None
    }
}

/// Whether `t` holds `lit` from position `i`; the position after it if so.
pub fn expect_at(t: &Vec<char>, i: usize, lit: &str) -> (r: Option<usize>)
    requires
        i <= t.len(),
    ensures
        match expect(t@, i as int, lit@) {
            Some(j) => r is Some && r.unwrap() as int == j,
            None => r is None,
        },
        r is Some ==> r.unwrap() <= t.len(),
{
    let l = chars_of(lit);
    if l.len() > t.len() - i {
        return None;
    }
    let mut k: usize = 0;
    while k < l.len()
        invariant
            l@ == lit@,
            i + l.len() <= t.len(),
            0 <= k <= l.len(),
            forall|m: int| 0 <= m < k ==> t@[i + m] == l@[m],
        decreases l.len() - k,
    {
        if t[i + k] != l[k] {
            assert(t@.subrange(i as int, i + l.len())[k as int] != lit@[k as int]);
            return None;
        }
        k = k + 1;
    }
    assert(t@.subrange(i as int, i + l.len()) =~= lit@);
    Some(i + l.len())
}

fn hex_digit_value(c: char) -> (r: Option<u32>)
    ensures
        match hex_value(c) {
            Some(v) => r == Some(v as u32),
            None => r is None,
        },
{
    if '0' <= c && c <= '9' {
        Some(c as u32 - 48)
    } else if 'a' <= c && c <= 'f' {
        Some(c as u32 - 87)
    } else {
        None
    }
}

fn read_escape_at(t: &Vec<char>, i: usize) -> (r: Option<(char, usize)>)
    requires
        i < t.len(),
    ensures
        match read_escape(t@, i as int) {
            Some((c, j)) => r is Some && r.unwrap().0 == c && r.unwrap().1 as int == j,
            None => r is None,
        },
{
    if i + 1 >= t.len() {
        return None;
    }
    let e = t[i + 1];
    if e == '"' {
        Some(('"', i + 2))
    } else if e == '\\' {
        Some(('\\', i + 2))
    } else if e == 'n' {
        Some(('\n', i + 2))
    } else if e == 'r' {
        Some(('\r', i + 2))
    } else if e == 't' {
        Some(('\t', i + 2))
    } else if e == 'b' {
        Some(('\x08', i + 2))
    } else if e == 'f' {
        Some(('\x0c', i + 2))
    } else if e == 'u' && t.len() - i > 5 && t[i + 2] == '0' && t[i + 3] == '0' {
        match (hex_digit_value(t[i + 4]), hex_digit_value(t[i + 5])) {
            (Some(hi), Some(lo)) => {
                if hi < 2 {
                    let v = hi * 16 + lo;
                    Some(((v as u8) as char, i + 6))
                } else {
                    None
                }
            },
            _ => None,
        }
    } else {
        None
    }
}

/// Reads quoted text from just after the opening quote, as `read_quoted` says.
pub fn read_quoted_at(t: &Vec<char>, i: usize) -> (r: Option<(String, usize)>)
    requires
        i <= t.len(),
    ensures
        match read_quoted(t@, i as int) {
            Some((s, j)) => r is Some && r.unwrap().0@ == s && r.unwrap().1 as int == j,
            None => r is None,
        },
        r is Some ==> r.unwrap().1 <= t.len(),
{
    let mut acc: Vec<char> = Vec::new();
    let mut j: usize = i;
    while j < t.len()
        invariant
            i <= j <= t.len(),
            read_quoted(t@, i as int) == match read_quoted(t@, j as int) {
                Some((s, k)) => Some((acc@ + s, k)),
                None => None,
            },
        decreases t.len() - j,
    {
        let c = t[j];
        if c == '"' {
            assert(acc@ + Seq::<char>::empty() =~= acc@);
            let s = string_of(&acc);
            return Some((s, j + 1));
        } else if c == '\\' {
            match read_escape_at(t, j) {
                Some((e, k)) => {
                    proof {
                        match read_quoted(t@, k as int) {
                            Some((s, m)) => {
                                assert(acc@ + (seq![e] + s) =~= acc@.push(e) + s);
                            },
                            None => {},
                        }
                    }
                    acc.push(e);
                    j = k;
                },
                None => {
                    return None;
                },
            }
        } else {
            proof {
                match read_quoted(t@, j + 1) {
                    Some((s, m)) => {
                        assert(acc@ + (seq![c] + s) =~= acc@.push(c) + s);
                    },
                    None => {},
                }
            }
            acc.push(c);
            j = j + 1;
        }
    }
    None
}

} // verus!
