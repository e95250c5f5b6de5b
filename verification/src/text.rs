//! Characters and decimal renderings, the pieces every module that builds a
//! message or reads source text shares.

use vstd::prelude::*;

verus! {

/// The character of a decimal digit.
pub open spec fn digit_char(d: nat) -> char {
    (48 + d) as char
}

/// The decimal digits of a natural number, most significant first, with no
/// leading zero (zero itself is the one digit `0`).
pub open spec fn digits_of(n: nat) -> Seq<char>
    decreases n,
{
    if n < 10 {
        seq![digit_char(n)]
    } else {
        digits_of(n / 10).push(digit_char(n % 10))
    }
}

/// How an integer is written: a minus sign when it is negative, then its
/// digits.
pub open spec fn decimal(v: int) -> Seq<char> {
    if v < 0 {
        seq!['-'] + digits_of((-v) as nat)
    } else {
        digits_of(v as nat)
    }
}

/// A string holding exactly these characters.
#[verifier::external_body]
pub(crate) fn string_from_chars(chars: &[char]) -> (s: String)
    ensures
        s@ == chars@,
{
    chars.iter().collect()
}

/// The characters of a string, in order.
#[verifier::external_body]
pub(crate) fn chars_of(s: &str) -> (v: Vec<char>)
    ensures
        v@ == s@,
{
    s.chars().collect()
}

fn push_digits(n: u64, out: &mut Vec<char>)
    ensures
        final(out)@ == old(out)@ + digits_of(n as nat),
    decreases n,
{
    if n >= 10 {
        push_digits(n / 10, out);
    }
    let d = n % 10;
    out.push(((48 + d) as u8) as char);
    assert(((48 + d) as u8) as char == digit_char(d as nat));
}

/// The digits of a machine number, appended.
pub fn push_u64(n: u64, out: &mut Vec<char>)
    ensures
        final(out)@ == old(out)@ + digits_of(n as nat),
{
    push_digits(n, out);
}

/// The digits of a signed machine number, with its sign, appended.
pub fn push_i64(n: i64, out: &mut Vec<char>)
    ensures
        final(out)@ == old(out)@ + decimal(n as int),
{
    if n < 0 {
        out.push('-');
        let m: u64 = (0i128 - n as i128) as u64;
        push_digits(m, out);
        assert(old(out)@.push('-') + digits_of(m as nat) =~= old(out)@ + (seq!['-']
            + digits_of(m as nat)));
    } else {
        push_digits(n as u64, out);
    }
}

/// A machine number as the string that spells it.
pub fn render_u64(n: u64) -> (s: String)
    ensures
        s@ == digits_of(n as nat),
{
    let mut out: Vec<char> = Vec::new();
    push_u64(n, &mut out);
    assert(out@ =~= digits_of(n as nat));
    string_from_chars(out.as_slice())
}

/// A signed machine number as the string that spells it.
pub fn render_i64(n: i64) -> (s: String)
    ensures
        s@ == decimal(n as int),
{
    let mut out: Vec<char> = Vec::new();
    push_i64(n, &mut out);
    assert(out@ =~= decimal(n as int));
    string_from_chars(out.as_slice())
}

/// Appends the characters of `s`.
pub fn push_str(out: &mut Vec<char>, s: &str)
    ensures
        final(out)@ == old(out)@ + s@,
{
    let chars = chars_of(s);
    let mut i: usize = 0;
    while i < chars.len()
        invariant
            i <= chars@.len(),
            chars@ == s@,
            out@ == old(out)@ + chars@.subrange(0, i as int),
        decreases chars@.len() - i,
    {
        out.push(chars[i]);
        i += 1;
        assert(out@ =~= old(out)@ + chars@.subrange(0, i as int));
    }
    assert(chars@.subrange(0, i as int) =~= chars@);
}

} // verus!

verus! {

/// Whether two texts are the same characters.
pub fn same_text(a: &str, b: &str) -> (r: bool)
    ensures
        r == (a@ == b@),
{
    let x = chars_of(a);
    let y = chars_of(b);
    same_chars(x.as_slice(), y.as_slice())
}

/// Whether two character runs are equal.
pub fn same_chars(x: &[char], y: &[char]) -> (r: bool)
    ensures
        r == (x@ == y@),
{
    if x.len() != y.len() {
        return false;
    }
    let mut i: usize = 0;
    while i < x.len()
        invariant
            i <= x@.len(),
            x@.len() == y@.len(),
            forall|j: int| 0 <= j < i ==> x@[j] == y@[j],
        decreases x@.len() - i,
    {
        if x[i] != y[i] {
            assert(x@[i as int] != y@[i as int]);
            return false;
        }
        i += 1;
    }
    assert(x@ =~= y@);
    true
}

/// Whether `s` begins with `prefix`.
pub open spec fn has_prefix(s: Seq<char>, prefix: Seq<char>) -> bool {
    prefix.len() <= s.len() && s.subrange(0, prefix.len() as int) == prefix
}

/// Whether the characters of `s` from `at` on begin with `prefix`.
pub fn prefix_at(s: &[char], at: usize, prefix: &[char]) -> (r: bool)
    requires
        at <= s@.len(),
    ensures
        r == has_prefix(s@.subrange(at as int, s@.len() as int), prefix@),
{
    let n = s.len();
    if n - at < prefix.len() {
        return false;
    }
    let mut i: usize = 0;
    while i < prefix.len()
        invariant
            n == s@.len(),
            i <= prefix@.len(),
            at + prefix@.len() <= s@.len(),
            forall|j: int| 0 <= j < i ==> s@[at + j] == prefix@[j],
        decreases prefix@.len() - i,
    {
        if s[at + i] != prefix[i] {
            assert(s@.subrange(at as int, s@.len() as int).subrange(0, prefix@.len() as int)[i as int]
                != prefix@[i as int]);
            return false;
        }
        i += 1;
    }
    assert(s@.subrange(at as int, s@.len() as int).subrange(0, prefix@.len() as int) =~= prefix@);
    true
}

/// A string of these characters, from a literal's or a string's.
pub fn string_of(s: &str) -> (r: String)
    ensures
        r@ == s@,
{
    s.to_string()
}

} // verus!

verus! {

/// Unicode's White_Space property, which `char::is_whitespace` answers.
pub open spec fn is_space(c: char) -> bool {
    ||| '\t' <= c <= '\r'
    ||| c == ' '
    ||| c == '\u{85}'
    ||| c == '\u{a0}'
    ||| c == '\u{1680}'
    ||| '\u{2000}' <= c <= '\u{200a}'
    ||| c == '\u{2028}'
    ||| c == '\u{2029}'
    ||| c == '\u{202f}'
    ||| c == '\u{205f}'
    ||| c == '\u{3000}'
}

pub fn is_whitespace(c: char) -> (r: bool)
    ensures
        r == is_space(c),
{
    ('\t' <= c && c <= '\r') || c == ' ' || c == '\u{85}' || c == '\u{a0}' || c == '\u{1680}'
        || ('\u{2000}' <= c && c <= '\u{200a}') || c == '\u{2028}' || c == '\u{2029}'
        || c == '\u{202f}' || c == '\u{205f}' || c == '\u{3000}'
}

/// How many bytes UTF-8 spends on a character.
pub open spec fn utf8_width(c: char) -> nat {
    if (c as u32) < 0x80 {
        1
    } else if (c as u32) < 0x800 {
        2
    } else if (c as u32) < 0x10000 {
        3
    } else {
        4
    }
}

/// How many bytes UTF-8 spends on a run of characters: what `str::len` says.
pub open spec fn byte_len(s: Seq<char>) -> nat
    decreases s.len(),
{
    if s.len() == 0 {
        0
    } else {
        byte_len(s.drop_last()) + utf8_width(s.last())
    }
}

pub proof fn lemma_byte_len_concat(a: Seq<char>, b: Seq<char>)
    ensures
        byte_len(a + b) == byte_len(a) + byte_len(b),
    decreases b.len(),
{
    if b.len() == 0 {
        assert(a + b =~= a);
    } else {
        assert((a + b).drop_last() =~= a + b.drop_last());
        lemma_byte_len_concat(a, b.drop_last());
    }
}

pub proof fn lemma_byte_len_bounds(s: Seq<char>)
    ensures
        s.len() <= byte_len(s) <= 4 * s.len(),
    decreases s.len(),
{
    if s.len() > 0 {
        lemma_byte_len_bounds(s.drop_last());
    }
}

pub fn utf8_width_of(c: char) -> (r: usize)
    ensures
        r == utf8_width(c),
{
    let u = c as u32;
    if u < 0x80 {
        1
    } else if u < 0x800 {
        2
    } else if u < 0x10000 {
        3
    } else {
        4
    }
}

/// The byte length of `s[from..to]`.
pub fn byte_len_of(s: &[char], from: usize, to: usize) -> (r: usize)
    requires
        from <= to <= s@.len(),
        4 * s@.len() <= usize::MAX,
    ensures
        r == byte_len(s@.subrange(from as int, to as int)),
{
    let mut n: usize = 0;
    let mut i: usize = from;
    assert(s@.subrange(from as int, from as int) =~= Seq::<char>::empty());
    while i < to
        invariant
            from <= i <= to <= s@.len(),
            4 * s@.len() <= usize::MAX,
            n == byte_len(s@.subrange(from as int, i as int)),
        decreases to - i,
    {
        proof {
            assert(s@.subrange(from as int, i + 1).drop_last() =~= s@.subrange(from as int, i as int));
            lemma_byte_len_bounds(s@.subrange(from as int, i as int));
        }
        n = n + utf8_width_of(s[i]);
        i += 1;
    }
    n
}

/// The run without its trailing whitespace: what `str::trim_end` leaves.
pub open spec fn trim_end(s: Seq<char>) -> Seq<char>
    decreases s.len(),
{
    if s.len() > 0 && is_space(s.last()) {
        trim_end(s.drop_last())
    } else {
        s
    }
}

/// How many characters of leading whitespace `s` has.
pub open spec fn leading_space(s: Seq<char>) -> nat
    decreases s.len(),
{
    if s.len() > 0 && is_space(s[0]) {
        1 + leading_space(s.drop_first())
    } else {
        0
    }
}

/// The run without its leading whitespace: what `str::trim_start` leaves.
pub open spec fn trim_start(s: Seq<char>) -> Seq<char> {
    s.subrange(leading_space(s) as int, s.len() as int)
}

pub proof fn lemma_trim_end_prefix(s: Seq<char>)
    ensures
        trim_end(s).len() <= s.len(),
        trim_end(s) == s.subrange(0, trim_end(s).len() as int),
        forall|i: int| trim_end(s).len() <= i < s.len() ==> is_space(#[trigger] s[i]),
        trim_end(s).len() > 0 ==> !is_space(trim_end(s).last()),
    decreases s.len(),
{
    if s.len() > 0 && is_space(s.last()) {
        lemma_trim_end_prefix(s.drop_last());
        assert forall|i: int| trim_end(s).len() <= i < s.len() implies is_space(#[trigger] s[i]) by {
            if i < s.len() - 1 {
                assert(s.drop_last()[i] == s[i]);
            }
        }
    } else {
        assert(s.subrange(0, s.len() as int) =~= s);
    }
}

pub proof fn lemma_leading_space(s: Seq<char>)
    ensures
        leading_space(s) <= s.len(),
        forall|i: int| 0 <= i < leading_space(s) ==> is_space(#[trigger] s[i]),
        leading_space(s) < s.len() ==> !is_space(s[leading_space(s) as int]),
    decreases s.len(),
{
    if s.len() > 0 && is_space(s[0]) {
        lemma_leading_space(s.drop_first());
        assert forall|i: int| 0 <= i < leading_space(s) implies is_space(#[trigger] s[i]) by {
            if i > 0 {
                assert(s.drop_first()[i - 1] == s[i]);
            }
        }
        if leading_space(s) < s.len() {
            assert(s.drop_first()[leading_space(s.drop_first()) as int] == s[leading_space(s) as int]);
        }
    }
}

/// Where `trim_end` stops: the length of `s[..to]` without trailing
/// whitespace.
pub fn trimmed_end(s: &[char], to: usize) -> (r: usize)
    requires
        to <= s@.len(),
    ensures
        r == trim_end(s@.subrange(0, to as int)).len(),
        r <= to,
{
    let mut k = to;
    while k > 0 && is_whitespace(s[k - 1])
        invariant
            k <= to <= s@.len(),
            trim_end(s@.subrange(0, to as int)) == trim_end(s@.subrange(0, k as int)),
        decreases k,
    {
        assert(s@.subrange(0, k as int).drop_last() =~= s@.subrange(0, k - 1));
        k -= 1;
    }
    proof {
        lemma_trim_end_prefix(s@.subrange(0, k as int));
        if k > 0 {
            assert(s@.subrange(0, k as int).last() == s@[k - 1]);
        }
    }
    k
}

/// How many whitespace characters `s[from..to]` starts with.
pub fn leading_spaces(s: &[char], from: usize, to: usize) -> (r: usize)
    requires
        from <= to <= s@.len(),
    ensures
        r == leading_space(s@.subrange(from as int, to as int)),
        from + r <= to,
{
    let mut k = from;
    while k < to && is_whitespace(s[k])
        invariant
            from <= k <= to <= s@.len(),
            leading_space(s@.subrange(from as int, to as int)) == (k - from) + leading_space(
                s@.subrange(k as int, to as int),
            ),
        decreases to - k,
    {
        assert(s@.subrange(k as int, to as int).drop_first() =~= s@.subrange(k + 1, to as int));
        k += 1;
    }
    k - from
}

/// The parts of `s` between occurrences of `sep`: what `str::split` yields.
/// There is always at least one part, and two separators side by side leave
/// an empty part between them.
pub open spec fn split_on(s: Seq<char>, sep: char) -> Seq<Seq<char>>
    decreases s.len(),
{
    if s.len() == 0 {
        seq![Seq::<char>::empty()]
    } else {
        let rest = split_on(s.drop_last(), sep);
        if s.last() == sep {
            rest.push(Seq::<char>::empty())
        } else {
            rest.update(rest.len() - 1, rest.last().push(s.last()))
        }
    }
}

pub proof fn lemma_split_on_nonempty(s: Seq<char>, sep: char)
    ensures
        split_on(s, sep).len() >= 1,
    decreases s.len(),
{
    if s.len() > 0 {
        lemma_split_on_nonempty(s.drop_last(), sep);
    }
}

pub proof fn lemma_split_on_bounds(s: Seq<char>, sep: char)
    ensures
        split_on(s, sep).len() <= s.len() + 1,
        forall|i: int| 0 <= i < split_on(s, sep).len() ==> (#[trigger] split_on(s, sep)[i]).len() <= s.len(),
    decreases s.len(),
{
    if s.len() > 0 {
        lemma_split_on_bounds(s.drop_last(), sep);
        lemma_split_on_nonempty(s.drop_last(), sep);
    }
}

/// Splits `s[from..to]` at each `sep`.
pub fn split_chars(s: &[char], from: usize, to: usize, sep: char) -> (r: Vec<Vec<char>>)
    requires
        from <= to <= s@.len(),
    ensures
        r@.len() == split_on(s@.subrange(from as int, to as int), sep).len(),
        forall|i: int| 0 <= i < r@.len() ==> #[trigger] r@[i]@ == split_on(s@.subrange(from as int, to as int), sep)[i],
{
    let mut parts: Vec<Vec<char>> = Vec::new();
    let mut cur: Vec<char> = Vec::new();
    let mut i = from;
    assert(s@.subrange(from as int, from as int) =~= Seq::<char>::empty());
    while i < to
        invariant
            from <= i <= to <= s@.len(),
            ({
                let sp = split_on(s@.subrange(from as int, i as int), sep);
                &&& sp.len() == parts@.len() + 1
                &&& forall|j: int| 0 <= j < parts@.len() ==> #[trigger] parts@[j]@ == sp[j]
                &&& cur@ == sp.last()
            }),
        decreases to - i,
    {
        let ghost prev = split_on(s@.subrange(from as int, i as int), sep);
        assert(s@.subrange(from as int, i + 1).drop_last() =~= s@.subrange(from as int, i as int));
        if s[i] == sep {
            parts.push(cur);
            cur = Vec::new();
        } else {
            cur.push(s[i]);
        }
        i += 1;
        proof {
            let sp = split_on(s@.subrange(from as int, i as int), sep);
            assert forall|j: int| 0 <= j < parts@.len() implies #[trigger] parts@[j]@ == sp[j] by {
            }
        }
    }
    parts.push(cur);
    parts
}

/// Parts joined with a separator between each two: what `join` makes.
pub open spec fn join_with(parts: Seq<Seq<char>>, sep: Seq<char>) -> Seq<char>
    decreases parts.len(),
{
    if parts.len() == 0 {
        Seq::<char>::empty()
    } else if parts.len() == 1 {
        parts[0]
    } else {
        join_with(parts.drop_last(), sep) + sep + parts.last()
    }
}

/// `parts[from..to]` joined with `sep`.
pub fn join_parts(parts: &Vec<Vec<char>>, from: usize, to: usize, sep: char) -> (r: Vec<char>)
    requires
        from <= to <= parts@.len(),
    ensures
        r@ == join_with(parts@.subrange(from as int, to as int).map_values(|p: Vec<char>| p@), seq![sep]),
{
    let mut out: Vec<char> = Vec::new();
    let mut i = from;
    assert(parts@.subrange(from as int, from as int).map_values(|p: Vec<char>| p@) =~= Seq::<Seq<char>>::empty());
    while i < to
        invariant
            from <= i <= to <= parts@.len(),
            out@ == join_with(parts@.subrange(from as int, i as int).map_values(|p: Vec<char>| p@), seq![sep]),
        decreases to - i,
    {
        let ghost before = parts@.subrange(from as int, i as int).map_values(|p: Vec<char>| p@);
        let ghost after = parts@.subrange(from as int, i + 1).map_values(|p: Vec<char>| p@);
        assert(after.drop_last() =~= before);
        assert(after.last() == parts@[i as int]@);
        if i > from {
            out.push(sep);
        } else {
            assert(after =~= seq![parts@[i as int]@]);
        }
        let mut k: usize = 0;
        let ghost base = out@;
        while k < parts[i].len()
            invariant
                from <= i < to <= parts@.len(),
                k <= parts@[i as int]@.len(),
                out@ == base + parts@[i as int]@.subrange(0, k as int),
            decreases parts@[i as int]@.len() - k,
        {
            out.push(parts[i][k]);
            k += 1;
            assert(out@ =~= base + parts@[i as int]@.subrange(0, k as int));
        }
        assert(parts@[i as int]@.subrange(0, k as int) =~= parts@[i as int]@);
        i += 1;
    }
    out
}

} // verus!

verus! {

/// The lines of a text, as `str::lines` gives them: split at each `\n`, a
/// `\r` before the `\n` taken off with it, and no empty last line for a
/// text that ends in one.
pub open spec fn lines_of(s: Seq<char>) -> Seq<Seq<char>> {
    let parts = split_on(s, '\n');
    let body = parts.drop_last().map_values(|p: Seq<char>| strip_cr(p));
    if parts.last().len() == 0 {
        body
    } else {
        body.push(parts.last())
    }
}

/// A line without the one `\r` its ending may carry.
pub open spec fn strip_cr(p: Seq<char>) -> Seq<char> {
    if p.len() > 0 && p.last() == '\r' {
        p.drop_last()
    } else {
        p
    }
}

pub proof fn lemma_lines_bounds(s: Seq<char>)
    ensures
        lines_of(s).len() <= s.len() + 1,
        forall|i: int| 0 <= i < lines_of(s).len() ==> (#[trigger] lines_of(s)[i]).len() <= s.len(),
{
    lemma_split_on_bounds(s, '\n');
    lemma_split_on_nonempty(s, '\n');
    let parts = split_on(s, '\n');
    assert forall|i: int| 0 <= i < lines_of(s).len() implies (#[trigger] lines_of(s)[i]).len() <= s.len() by {
        assert(parts[i].len() <= s.len());
    }
}

/// The lines of `s`.
pub fn lines(s: &[char]) -> (r: Vec<Vec<char>>)
    ensures
        r@.len() == lines_of(s@).len(),
        forall|i: int| 0 <= i < r@.len() ==> #[trigger] r@[i]@ == lines_of(s@)[i],
{
    let parts = split_chars(s, 0, s.len(), '\n');
    proof {
        assert(s@.subrange(0, s@.len() as int) =~= s@);
        lemma_split_on_nonempty(s@, '\n');
    }
    let ghost sp = split_on(s@, '\n');
    let mut out: Vec<Vec<char>> = Vec::new();
    let last = parts.len() - 1;
    let mut i: usize = 0;
    while i < last
        invariant
            i <= last,
            last + 1 == parts@.len() == sp.len(),
            forall|j: int| 0 <= j < parts@.len() ==> #[trigger] parts@[j]@ == sp[j],
            out@.len() == i,
            forall|j: int| 0 <= j < i ==> #[trigger] out@[j]@ == strip_cr(sp[j]),
        decreases last - i,
    {
        let p = &parts[i];
        let mut line: Vec<char> = Vec::new();
        let n = if p.len() > 0 && p[p.len() - 1] == '\r' { p.len() - 1 } else { p.len() };
        let mut k: usize = 0;
        while k < n
            invariant
                k <= n <= p@.len(),
                line@ == p@.subrange(0, k as int),
            decreases n - k,
        {
            line.push(p[k]);
            k += 1;
            assert(line@ =~= p@.subrange(0, k as int));
        }
        assert(line@ =~= strip_cr(p@));
        out.push(line);
        i += 1;
    }
    if parts[last].len() > 0 {
        let mut line: Vec<char> = Vec::new();
        let mut k: usize = 0;
        while k < parts[last].len()
            invariant
                last < parts@.len(),
                k <= parts@[last as int]@.len(),
                line@ == parts@[last as int]@.subrange(0, k as int),
            decreases parts@[last as int]@.len() - k,
        {
            line.push(parts[last][k]);
            k += 1;
            assert(line@ =~= parts@[last as int]@.subrange(0, k as int));
        }
        assert(line@ =~= parts@[last as int]@);
        out.push(line);
    }
    out
}

} // verus!

verus! {

/// The first position of `c` in `s`, or -1.
pub open spec fn index_of(s: Seq<char>, c: char) -> int
    decreases s.len(),
{
    if s.len() == 0 {
        -1
    } else if s[0] == c {
        0
    } else {
        let r = index_of(s.drop_first(), c);
        if r < 0 {
            -1
        } else {
            r + 1
        }
    }
}

pub proof fn lemma_index_of(s: Seq<char>, c: char, i: int)
    requires
        0 <= i <= s.len(),
        forall|j: int| 0 <= j < i ==> s[j] != c,
    ensures
        i < s.len() && s[i] == c ==> index_of(s, c) == i,
        i == s.len() ==> index_of(s, c) == -1,
    decreases i,
{
    if i > 0 {
        lemma_index_of(s.drop_first(), c, i - 1);
    } else if s.len() == 0 {
    }
}

/// The first position of `c` in `s`, if it occurs.
pub fn find_char(s: &[char], c: char) -> (r: Option<usize>)
    ensures
        match r {
            None => index_of(s@, c) == -1,
            Some(i) => i == index_of(s@, c) && i < s@.len() && s@[i as int] == c,
        },
{
    let mut i: usize = 0;
    while i < s.len()
        invariant
            i <= s@.len(),
            forall|j: int| 0 <= j < i ==> s@[j] != c,
        decreases s@.len() - i,
    {
        if s[i] == c {
            proof {
                lemma_index_of(s@, c, i as int);
            }
            return Some(i);
        }
        i += 1;
    }
    proof {
        lemma_index_of(s@, c, i as int);
    }
    None
}

/// The last position of `c` in `s`, or -1.
pub open spec fn last_index_of(s: Seq<char>, c: char) -> int
    decreases s.len(),
{
    if s.len() == 0 {
        -1
    } else if s.last() == c {
        s.len() - 1
    } else {
        last_index_of(s.drop_last(), c)
    }
}

pub proof fn lemma_last_index_of_bounds(s: Seq<char>, c: char)
    ensures
        -1 <= last_index_of(s, c) < s.len(),
        last_index_of(s, c) >= 0 ==> s[last_index_of(s, c)] == c,
    decreases s.len(),
{
    if s.len() > 0 && s.last() != c {
        lemma_last_index_of_bounds(s.drop_last(), c);
    }
}

/// The last position of `c` in `s`, if it occurs.
pub fn find_last_char(s: &[char], c: char) -> (r: Option<usize>)
    ensures
        match r {
            None => last_index_of(s@, c) == -1,
            Some(i) => i == last_index_of(s@, c) && i < s@.len(),
        },
{
    let mut k: usize = s.len();
    assert(s@.subrange(0, k as int) =~= s@);
    while k > 0
        invariant
            k <= s@.len(),
            last_index_of(s@, c) == last_index_of(s@.subrange(0, k as int), c),
        decreases k,
    {
        let ghost pre = s@.subrange(0, k as int);
        assert(pre.drop_last() =~= s@.subrange(0, k - 1));
        if s[k - 1] == c {
            return Some(k - 1);
        }
        k -= 1;
    }
    None
}

/// The part of a qualified name after its last `/`, when it has one.
pub open spec fn after_last_slash(s: Seq<char>) -> Option<Seq<char>> {
    let i = last_index_of(s, '/');
    if i < 0 {
        None
    } else {
        Some(s.subrange(i + 1, s.len() as int))
    }
}

/// Whether `s` ends with `suffix`.
pub open spec fn has_suffix(s: Seq<char>, suffix: Seq<char>) -> bool {
    suffix.len() <= s.len() && s.subrange(s.len() - suffix.len(), s.len() as int) == suffix
}

/// `s[from..to]` as its own vector.
pub fn slice_vec(s: &[char], from: usize, to: usize) -> (r: Vec<char>)
    requires
        from <= to <= s@.len(),
    ensures
        r@ == s@.subrange(from as int, to as int),
{
    let mut out: Vec<char> = Vec::new();
    let mut i = from;
    while i < to
        invariant
            from <= i <= to <= s@.len(),
            out@ == s@.subrange(from as int, i as int),
        decreases to - i,
    {
        out.push(s[i]);
        i += 1;
        assert(out@ =~= s@.subrange(from as int, i as int));
    }
    out
}

/// Whether `s[from..to]` ends with `suffix`.
pub fn suffix_at(s: &[char], from: usize, to: usize, suffix: &[char]) -> (r: bool)
    requires
        from <= to <= s@.len(),
    ensures
        r == has_suffix(s@.subrange(from as int, to as int), suffix@),
{
    if to - from < suffix.len() {
        return false;
    }
    let start = to - suffix.len();
    let mut i: usize = 0;
    while i < suffix.len()
        invariant
            i <= suffix@.len(),
            from <= start,
            start + suffix@.len() == to <= s@.len(),
            forall|j: int| 0 <= j < i ==> s@[start + j] == suffix@[j],
        decreases suffix@.len() - i,
    {
        if s[start + i] != suffix[i] {
            let ghost sub = s@.subrange(from as int, to as int);
            assert(sub.subrange(sub.len() - suffix@.len(), sub.len() as int)[i as int] != suffix@[i as int]);
            return false;
        }
        i += 1;
    }
    let ghost sub = s@.subrange(from as int, to as int);
    assert(sub.subrange(sub.len() - suffix@.len(), sub.len() as int) =~= suffix@);
    true
}

} // verus!

verus! {

/// Lexicographic order on character runs, by code point: how `str`'s `Ord`
/// orders (UTF-8 keeps code point order byte for byte).
pub open spec fn seq_lt(a: Seq<char>, b: Seq<char>) -> bool
    decreases a.len(),
{
    if a.len() == 0 {
        b.len() > 0
    } else if b.len() == 0 {
        false
    } else if a[0] != b[0] {
        (a[0] as int) < (b[0] as int)
    } else {
        seq_lt(a.drop_first(), b.drop_first())
    }
}

pub proof fn lemma_seq_lt_irreflexive(a: Seq<char>)
    ensures
        !seq_lt(a, a),
    decreases a.len(),
{
    if a.len() > 0 {
        lemma_seq_lt_irreflexive(a.drop_first());
    }
}

pub proof fn lemma_seq_lt_transitive(a: Seq<char>, b: Seq<char>, c: Seq<char>)
    requires
        seq_lt(a, b),
        seq_lt(b, c),
    ensures
        seq_lt(a, c),
    decreases a.len(),
{
    if a.len() > 0 && b.len() > 0 && c.len() > 0 && a[0] == b[0] && b[0] == c[0] {
        lemma_seq_lt_transitive(a.drop_first(), b.drop_first(), c.drop_first());
    }
}

pub proof fn lemma_seq_lt_total(a: Seq<char>, b: Seq<char>)
    ensures
        a == b || seq_lt(a, b) || seq_lt(b, a),
    decreases a.len(),
{
    if a.len() > 0 && b.len() > 0 && a[0] == b[0] {
        lemma_seq_lt_total(a.drop_first(), b.drop_first());
        if a.drop_first() == b.drop_first() {
            assert(a =~= seq![a[0]] + a.drop_first());
            assert(b =~= seq![b[0]] + b.drop_first());
        }
    } else if a.len() == 0 && b.len() == 0 {
        assert(a =~= b);
    }
}

/// Whether `a` sorts before `b`.
pub fn text_less(a: &str, b: &str) -> (r: bool)
    ensures
        r == seq_lt(a@, b@),
{
    let x = chars_of(a);
    let y = chars_of(b);
    let mut i: usize = 0;
    assert(x@.subrange(0, x@.len() as int) =~= x@);
    assert(y@.subrange(0, y@.len() as int) =~= y@);
    while i < x.len() && i < y.len() && x[i] == y[i]
        invariant
            i <= x@.len(),
            i <= y@.len(),
            seq_lt(x@, y@) == seq_lt(x@.subrange(i as int, x@.len() as int), y@.subrange(i as int, y@.len() as int)),
        decreases x@.len() - i,
    {
        assert(x@.subrange(i as int, x@.len() as int).drop_first() =~= x@.subrange(i + 1, x@.len() as int));
        assert(y@.subrange(i as int, y@.len() as int).drop_first() =~= y@.subrange(i + 1, y@.len() as int));
        i += 1;
    }
    assert(x@.subrange(0, x@.len() as int) =~= x@);
    assert(y@.subrange(0, y@.len() as int) =~= y@);
    if i == x.len() {
        i < y.len()
    } else if i == y.len() {
        false
    } else {
        assert(x@.subrange(i as int, x@.len() as int)[0] == x@[i as int]);
        assert(y@.subrange(i as int, y@.len() as int)[0] == y@[i as int]);
        x[i] < y[i]
    }
}

} // verus!
