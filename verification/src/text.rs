//! Small verified helpers over strings and character sequences.

use vstd::prelude::*;
use vstd::string::*;

verus! {

/// Copies the characters of `s` into a vector.
pub fn chars_of(s: &str) -> (v: Vec<char>)
    ensures
        v@ == s@,
{
    let mut v: Vec<char> = Vec::new();
    for c in it: s.chars()
        invariant
            v@ == it.seq().take(it.index() as int),
            it.seq() == s@,
    {
        v.push(c);
        assert(it.seq().take(it.index() + 1) =~= v@);
    }
    assert(v@ =~= s@);
    v
}

/// Whether `s` begins with `/`.
pub fn starts_with_slash(s: &str) -> (b: bool)
    ensures
        b == (s@.len() > 0 && s@[0] == '/'),
{
    !s.is_empty() && s.get_char(0) == '/'
}

/// Whether `s` ends with `/`.
pub fn ends_with_slash(s: &str) -> (b: bool)
    ensures
        b == (s@.len() > 0 && s@.last() == '/'),
{
    let n = s.unicode_len();
    n > 0 && s.get_char(n - 1) == '/'
}

/// `needle` occurs in `hay` starting at position `i`.
pub open spec fn occurs_at(hay: Seq<char>, needle: Seq<char>, i: int) -> bool {
    0 <= i && i + needle.len() <= hay.len() && hay.subrange(i, i + needle.len()) == needle
}

/// `needle` occurs somewhere in `hay` (the empty sequence occurs everywhere).
pub open spec fn contains_seq(hay: Seq<char>, needle: Seq<char>) -> bool {
    exists|i: int| occurs_at(hay, needle, i)
}

/// Whether `needle` occurs as a contiguous piece of `hay`.
pub fn contains_str(hay: &str, needle: &str) -> (b: bool)
    ensures
        b == contains_seq(hay@, needle@),
{
    let h = chars_of(hay);
    let n = chars_of(needle);
    if n.len() > h.len() {
        assert forall|i: int| !occurs_at(hay@, needle@, i) by {}
        return false;
    }
    let last = h.len() - n.len();
    let mut i: usize = 0;
    while i <= last
        invariant
            h@ == hay@,
            n@ == needle@,
            n.len() <= h.len(),
            last == h.len() - n.len(),
            forall|j: int| 0 <= j < i ==> !occurs_at(hay@, needle@, j),
        decreases last + 1 - i,
    {
        let mut j: usize = 0;
        let mut same = true;
        while j < n.len()
            invariant
                h@ == hay@,
                n@ == needle@,
                i + n.len() <= h.len(),
                j <= n.len(),
                same == (forall|k: int| 0 <= k < j ==> h@[i + k] == n@[k]),
            decreases n.len() - j,
        {
            if h[i + j] != n[j] {
                same = false;
            }
            j += 1;
        }
        if same {
            assert(hay@.subrange(i as int, i + needle@.len()) =~= needle@);
            assert(occurs_at(hay@, needle@, i as int));
            return true;
        }
        assert(!occurs_at(hay@, needle@, i as int)) by {
            let k = choose|k: int| 0 <= k < n.len() && h@[i + k] != n@[k];
            assert(hay@.subrange(i as int, i + needle@.len())[k] != needle@[k]);
        }
        i += 1;
    }
    assert forall|j: int| !occurs_at(hay@, needle@, j) by {
        if j > last {
            assert(j + needle@.len() > hay@.len());
        }
    }
    false
}

/// What `str::to_lowercase` returns for a string: its Unicode lower-case
/// mapping, which depends on the characters alone.
pub uninterp spec fn lowercase(s: Seq<char>) -> Seq<char>;

/// Calls `str::to_lowercase`; its result is named by [`lowercase`].
#[verifier::external_body]
pub(crate) fn to_lowercase(s: &str) -> (r: String)
    ensures
        r@ == lowercase(s@),
{
    s.to_lowercase()
}

/// The decimal digit character for `d` (`d < 10`).
pub open spec fn digit_char(d: nat) -> char {
    if d == 0 {
        '0'
    } else if d == 1 {
        '1'
    } else if d == 2 {
        '2'
    } else if d == 3 {
        '3'
    } else if d == 4 {
        '4'
    } else if d == 5 {
        '5'
    } else if d == 6 {
        '6'
    } else if d == 7 {
        '7'
    } else if d == 8 {
        '8'
    } else {
        '9'
    }
}

/// The decimal notation of `n`, without leading zeros.
pub open spec fn decimal(n: nat) -> Seq<char>
    decreases n,
{
    if n < 10 {
        seq![digit_char(n)]
    } else {
        decimal(n / 10).push(digit_char(n % 10))
    }
}

fn digit_str(d: usize) -> (s: &'static str)
    requires
        d < 10,
    ensures
        s@ == seq![digit_char(d as nat)],
{
    proof {
        reveal_strlit("0");
        reveal_strlit("1");
        reveal_strlit("2");
        reveal_strlit("3");
        reveal_strlit("4");
        reveal_strlit("5");
        reveal_strlit("6");
        reveal_strlit("7");
        reveal_strlit("8");
        reveal_strlit("9");
    }
    if d == 0 {
        "0"
    } else if d == 1 {
        "1"
    } else if d == 2 {
        "2"
    } else if d == 3 {
        "3"
    } else if d == 4 {
        "4"
    } else if d == 5 {
        "5"
    } else if d == 6 {
        "6"
    } else if d == 7 {
        "7"
    } else if d == 8 {
        "8"
    } else {
        "9"
    }
}

/// Formats `n` in decimal.
pub fn decimal_string(n: usize) -> (s: String)
    ensures
        s@ == decimal(n as nat),
    decreases n,
{
    if n < 10 {
        String::from_str(digit_str(n))
    } else {
        let mut s = decimal_string(n / 10);
        s.append(digit_str(n % 10));
        s
    }
}

/// Index of the first `\n` at or after `start`, or the length of `s`.
pub open spec fn next_newline(s: Seq<char>, start: int) -> int
    decreases s.len() - start,
{
    if start >= s.len() {
        s.len() as int
    } else if s[start] == '\n' {
        start
    } else {
        next_newline(s, start + 1)
    }
}

/// `l` without one trailing carriage return.
pub open spec fn strip_cr(l: Seq<char>) -> Seq<char> {
    if l.len() > 0 && l.last() == '\r' {
        l.drop_last()
    } else {
        l
    }
}

/// The lines of `s` from position `start` on, as `str::lines` gives them: a
/// line ends at `\n` (a `\r` just before it is dropped), and a final line
/// ending adds no empty line.
pub open spec fn lines_from(s: Seq<char>, start: int) -> Seq<Seq<char>>
    decreases s.len() - start,
{
    if start < 0 || start >= s.len() {
        Seq::empty()
    } else {
        let i = next_newline(s, start);
        proof {
            lemma_next_newline_bounds(s, start);
        }
        if i >= s.len() {
            seq![s.subrange(start, s.len() as int)]
        } else {
            seq![strip_cr(s.subrange(start, i))] + lines_from(s, i + 1)
        }
    }
}

/// The lines of `s`.
pub open spec fn text_lines(s: Seq<char>) -> Seq<Seq<char>> {
    lines_from(s, 0)
}

/// The next line ending after `start` lies between `start` and the end.
pub proof fn lemma_next_newline_bounds(s: Seq<char>, start: int)
    requires
        0 <= start,
    ensures
        start <= next_newline(s, start) || start > s.len(),
        next_newline(s, start) <= s.len() || start > s.len(),
        next_newline(s, start) < s.len() ==> s[next_newline(s, start)] == '\n',
    decreases s.len() - start,
{
    if start < s.len() && s[start] != '\n' {
        lemma_next_newline_bounds(s, start + 1);
    }
}

/// Splits `s` into lines as `str::lines` does.
pub fn split_lines(s: &str) -> (lines: Vec<String>)
    ensures
        lines@.map_values(|l: String| l@) == text_lines(s@),
{
    let c = chars_of(s);
    let len = c.len();
    let mut out: Vec<String> = Vec::new();
    let mut start: usize = 0;
    while start < len
        invariant
            c@ == s@,
            len == c.len(),
            start <= len,
            out@.map_values(|l: String| l@) + lines_from(s@, start as int) == text_lines(s@),
        decreases len - start,
    {
        let mut i = start;
        while i < len && c[i] != '\n'
            invariant
                c@ == s@,
                len == c.len(),
                start <= i <= len,
                next_newline(s@, start as int) == next_newline(s@, i as int),
            decreases len - i,
        {
            i += 1;
        }
        assert(next_newline(s@, start as int) == i);
        let ghost before = out@.map_values(|l: String| l@);
        if i >= len {
            let line = s.substring_char(start, len).to_owned();
            out.push(line);
            assert(out@.map_values(|l: String| l@) =~= before.push(line@));
            assert(lines_from(s@, len as int) =~= Seq::<Seq<char>>::empty());
            start = len;
        } else {
            let line = if i > start && c[i - 1] == '\r' {
                s.substring_char(start, i - 1).to_owned()
            } else {
                s.substring_char(start, i).to_owned()
            };
            assert(line@ == strip_cr(s@.subrange(start as int, i as int)));
            out.push(line);
            assert(out@.map_values(|l: String| l@) =~= before.push(line@));
            start = i + 1;
        }
    }
    out
}

// ── laws ─────────────────────────────────────────────────────────────────
/// The number that a sequence of decimal digits denotes.
pub open spec fn digits_value(s: Seq<char>) -> int
    decreases s.len(),
{
    if s.len() == 0 {
        0
    } else {
        digits_value(s.drop_last()) * 10 + (s.last() as int - '0' as int)
    }
}

proof fn lemma_digit_char(d: nat)
    requires
        d < 10,
    ensures
        digit_char(d) as int == '0' as int + d,
{
}

/// The decimal notation of `n` is a non-empty run of digits, without a
/// leading zero unless it is `0` itself, that denotes `n`.
pub proof fn law_decimal_denotes(n: nat)
    ensures
        digits_value(decimal(n)) == n,
        decimal(n).len() >= 1,
        forall|i: int| 0 <= i < decimal(n).len() ==> '0' <= #[trigger] decimal(n)[i] <= '9',
        decimal(n).len() > 1 ==> decimal(n)[0] != '0',
    decreases n,
{
    if n < 10 {
        lemma_digit_char(n);
        let d = decimal(n);
        assert(d.drop_last() =~= Seq::<char>::empty());
        assert(d.len() == 1);
        assert(digits_value(d) == digits_value(d.drop_last()) * 10 + (d.last() as int - '0' as int));
    } else {
        let m = n / 10;
        law_decimal_denotes(m);
        lemma_digit_char(n % 10);
        let d = decimal(n);
        assert(d.drop_last() =~= decimal(m));
        assert(d.last() == digit_char(n % 10));
        assert(digits_value(d) == digits_value(d.drop_last()) * 10 + (d.last() as int - '0' as int));
        assert(n == m * 10 + n % 10);
        assert(d[0] == decimal(m)[0]);
        if m < 10 {
            lemma_digit_char(m);
            assert(decimal(m) == seq![digit_char(m)]);
            assert(decimal(m)[0] as int != '0' as int);
        } else {
            assert(decimal(m).len() > 1) by {
                let dm = decimal(m);
                assert(dm.drop_last() =~= decimal(m / 10));
            }
        }
        assert forall|i: int| 0 <= i < d.len() implies '0' <= #[trigger] d[i] <= '9' by {
            if i < d.len() - 1 {
                assert(d[i] == decimal(m)[i]);
            }
        }
    }
}

proof fn lemma_next_newline_shift(p: Seq<char>, s: Seq<char>, k: int)
    requires
        0 <= k,
    ensures
        next_newline(p + s, p.len() + k) == p.len() + next_newline(s, k),
    decreases s.len() - k,
{
    let t = p + s;
    if k < s.len() {
        assert(t[p.len() + k] == s[k]);
        if s[k] != '\n' {
            lemma_next_newline_shift(p, s, k + 1);
        }
    }
}

proof fn lemma_lines_from_shift(p: Seq<char>, s: Seq<char>, k: int)
    requires
        0 <= k,
    ensures
        lines_from(p + s, p.len() + k) == lines_from(s, k),
    decreases s.len() - k,
{
    let t = p + s;
    if k < s.len() {
        lemma_next_newline_shift(p, s, k);
        lemma_next_newline_bounds(s, k);
        let i = next_newline(s, k);
        assert(t.subrange(p.len() + k, p.len() + i) =~= s.subrange(k, i));
        assert(t.subrange(p.len() + k, t.len() as int) =~= s.subrange(k, s.len() as int));
        if i < s.len() {
            lemma_lines_from_shift(p, s, i + 1);
        }
    }
}

proof fn lemma_next_newline_none(a: Seq<char>, b: Seq<char>, k: int)
    requires
        0 <= k <= a.len(),
        !a.contains('\n'),
    ensures
        next_newline(a + b, k) == a.len() + next_newline(b, 0),
    decreases a.len() - k,
{
    if k < a.len() {
        assert((a + b)[k] == a[k]);
        if a[k] == '\n' {
            assert(a.contains('\n'));
        }
        lemma_next_newline_none(a, b, k + 1);
    } else {
        lemma_next_newline_shift(a, b, 0);
    }
}

/// How a message splits into lines: an empty message has none, a message
/// without a line feed is one line, and a line feed ends the line before it
/// (without one carriage return just before it), the rest splitting the
/// same way.
pub proof fn law_text_lines(a: Seq<char>, b: Seq<char>)
    requires
        !a.contains('\n'),
    ensures
        text_lines(Seq::empty()) == Seq::<Seq<char>>::empty(),
        a.len() > 0 ==> text_lines(a) == seq![a],
        text_lines(a + seq!['\n'] + b) == seq![
            if a.len() > 0 && a.last() == '\r' {
                a.drop_last()
            } else {
                a
            },
        ] + text_lines(b),
{
    let empty = Seq::<char>::empty();
    lemma_next_newline_none(a, empty, 0);
    assert(a + empty =~= a);
    if a.len() > 0 {
        assert(a.subrange(0, a.len() as int) =~= a);
    }
    let nl = seq!['\n'];
    lemma_next_newline_none(a, nl + b, 0);
    assert(a + seq!['\n'] + b =~= a + (nl + b));
    let t = a + (nl + b);
    assert(t[a.len() as int] == '\n');
    assert(t.subrange(0, a.len() as int) =~= a);
    lemma_lines_from_shift(a + nl, b, 0);
    assert(a + nl + b =~= t);
    assert((a + nl).len() == a.len() + 1);
}

} // verus!
