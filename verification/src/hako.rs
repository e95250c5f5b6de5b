//! hako — packages. Imports are the manifest; the lock is the only place a
//! version is written down, and the cache is the only place the compiler
//! looks. What runs git and touches the disk stands in the program around
//! the library; what it decides with the answers is here.

use vstd::prelude::*;
use crate::number::{all_digits, decimal_value};
use crate::text::{
    byte_len, chars_of, find_char, has_prefix, has_suffix, index_of, join_parts, join_with, lines,
    lines_of, prefix_at, push_str, slice_vec, split_chars, split_on, string_from_chars,
    string_of, suffix_at, utf8_width, utf8_width_of,
};

mod imports;
mod lock;
mod report;

pub use self::imports::{holds, import_name, imported, required, sorted_set};

pub use self::report::{
    chosen, install_lines, install_lock, install_outcome, lock_line, moved, names_pin, nothing_to_install, update_lock,
    remote, remote_of, update_moves, update_outcome, update_plan, walks,
};
pub use self::lock::{lock_entry, lock_pin, pin_in, read_lock, sorted_names, words, Pins};

verus! {

/// A `/vN` major fork segment: `v` and then one or more ASCII digits.
pub open spec fn is_major_segment(s: Seq<char>) -> bool {
    s.len() >= 2 && s[0] == 'v' && all_digits(s.subrange(1, s.len() as int))
}

/// Where a hako name ends and a module path inside it begins.
pub open spec fn split_name_of(path: Seq<char>) -> Option<(Seq<char>, Option<Seq<char>>)> {
    let parts = split_on(path, '/');
    if parts.len() < 2 || parts[0].len() == 0 || parts[0].contains('.') {
        None
    } else {
        let cut: int = if parts.len() > 2 && is_major_segment(parts[2]) {
            3
        } else {
            2
        };
        let name = join_with(parts.subrange(0, cut), seq!['/']);
        let module = if parts.len() > cut {
            Some(join_with(parts.subrange(cut, parts.len() as int), seq!['/']))
        } else {
            None
        };
        Some((name, module))
    }
}

proof fn lemma_join_split(s: Seq<char>, c: char)
    ensures
        join_with(split_on(s, c), seq![c]) == s,
    decreases s.len(),
{
    if s.len() > 0 {
        let rest = split_on(s.drop_last(), c);
        lemma_join_split(s.drop_last(), c);
        crate::text::lemma_split_on_nonempty(s.drop_last(), c);
        if s.last() == c {
            let p = rest.push(Seq::<char>::empty());
            assert(p.drop_last() =~= rest);
            assert(s =~= s.drop_last() + seq![c] + Seq::<char>::empty());
        } else {
            let p = rest.update(rest.len() - 1, rest.last().push(s.last()));
            if rest.len() == 1 {
                assert(p[0] == rest[0].push(s.last()));
                assert(s =~= s.drop_last().push(s.last()));
            } else {
                assert(p.drop_last() =~= rest.drop_last());
                let a = join_with(rest.drop_last(), seq![c]);
                assert(join_with(rest, seq![c]) == a + seq![c] + rest.last());
                assert(s.drop_last() == a + seq![c] + rest.last());
                assert(s =~= s.drop_last().push(s.last()));
                assert((a + seq![c] + rest.last()).push(s.last()) =~= a + seq![c] + rest.last().push(s.last()));
                assert(join_with(p, seq![c]) == a + seq![c] + p.last());
            }
        }
    }
}

proof fn lemma_join_cut(parts: Seq<Seq<char>>, k: int, sep: Seq<char>)
    requires
        1 <= k < parts.len(),
    ensures
        join_with(parts, sep) == join_with(parts.subrange(0, k), sep) + sep + join_with(parts.subrange(k, parts.len() as int), sep),
    decreases parts.len(),
{
    let n = parts.len() as int;
    if k == n - 1 {
        assert(parts.subrange(0, k) =~= parts.drop_last());
        assert(parts.subrange(k, n) =~= seq![parts.last()]);
    } else {
        lemma_join_cut(parts.drop_last(), k, sep);
        assert(parts.drop_last().subrange(0, k) =~= parts.subrange(0, k));
        let tail = parts.subrange(k, n);
        assert(tail.drop_last() =~= parts.drop_last().subrange(k, n - 1));
        assert(tail.last() == parts.last());
    }
}

/// A split name rebuilds the path it came from: a name alone is the path,
/// and a name and a module joined by `/` are the path.
pub proof fn law_split_name_rebuilds(path: Seq<char>)
    ensures
        split_name_of(path) matches Some((n, m)) ==> match m {
            None => n == path,
            Some(md) => n + seq!['/'] + md == path,
        },
{
    let parts = split_on(path, '/');
    lemma_join_split(path, '/');
    if split_name_of(path) is Some {
        let cut: int = if parts.len() > 2 && is_major_segment(parts[2]) { 3 } else { 2 };
        if parts.len() > cut {
            lemma_join_cut(parts, cut, seq!['/']);
        } else {
            assert(parts.subrange(0, cut) =~= parts);
        }
    }
}

fn is_major(segment: &[char]) -> (r: bool)
    ensures
        r == is_major_segment(segment@),
{
    if segment.len() < 2 || segment[0] != 'v' {
        return false;
    }
    let mut i: usize = 1;
    while i < segment.len()
        invariant
            1 <= i <= segment@.len(),
            forall|j: int| 1 <= j < i ==> '0' <= #[trigger] segment@[j] <= '9',
        decreases segment@.len() - i,
    {
        if !('0' <= segment[i] && segment[i] <= '9') {
            assert(segment@.subrange(1, segment@.len() as int)[i - 1] == segment@[i as int]);
            return false;
        }
        i += 1;
    }
    assert forall|j: int| 0 <= j < segment@.len() - 1 implies '0' <= #[trigger] segment@.subrange(
        1,
        segment@.len() as int,
    )[j] <= '9' by {
        assert(segment@.subrange(1, segment@.len() as int)[j] == segment@[j + 1]);
    }
    true
}

fn has_dot(s: &[char]) -> (r: bool)
    ensures
        r == s@.contains('.'),
{
    let mut i: usize = 0;
    while i < s.len()
        invariant
            i <= s@.len(),
            forall|j: int| 0 <= j < i ==> s@[j] != '.',
        decreases s@.len() - i,
    {
        if s[i] == '.' {
            return true;
        }
        i += 1;
    }
    false
}

/// A name is `owner/repo` with an optional `/vN` major fork; everything after
/// that addresses a module within the hako.
pub fn split_name(path: &str) -> (r: Option<(String, Option<String>)>)
    ensures
        match r {
            None => split_name_of(path@) is None,
            Some((name, module)) => split_name_of(path@) matches Some((n, m)) && name@ == n
                && match module {
                None => m is None,
                Some(md) => m == Some(md@),
            },
        },
{
    let chars = chars_of(path);
    let parts = split_chars(chars.as_slice(), 0, chars.len(), '/');
    let ghost sp = split_on(path@, '/');
    proof {
        assert(chars@.subrange(0, chars@.len() as int) =~= chars@);
    }
    assert(parts@.map_values(|p: Vec<char>| p@) =~= sp);
    if parts.len() < 2 || parts[0].len() == 0 || has_dot(parts[0].as_slice()) {
        return None;
    }
    let major = parts.len() > 2 && is_major(parts[2].as_slice());
    let cut: usize = if major { 3 } else { 2 };
    let name = join_parts(&parts, 0, cut, '/');
    assert(parts@.subrange(0, cut as int).map_values(|p: Vec<char>| p@) =~= sp.subrange(0, cut as int));
    let module = if parts.len() > cut {
        let m = join_parts(&parts, cut, parts.len(), '/');
        assert(parts@.subrange(cut as int, parts@.len() as int).map_values(|p: Vec<char>| p@)
            =~= sp.subrange(cut as int, sp.len() as int));
        Some(string_from_chars(m.as_slice()))
    } else {
        None
    };
    Some((string_from_chars(name.as_slice()), module))
}

/// What `u64`'s `FromStr` accepts: an optional `+`, then one or more ASCII
/// digits spelling a number that fits.
pub open spec fn parse_u64_of(s: Seq<char>) -> Option<u64> {
    let digits = if s.len() > 0 && s[0] == '+' {
        s.drop_first()
    } else {
        s
    };
    if digits.len() == 0 || !all_digits(digits) || decimal_value(digits) > u64::MAX {
        None
    } else {
        Some(decimal_value(digits) as u64)
    }
}

proof fn lemma_decimal_grows(s: Seq<char>, i: int)
    requires
        0 <= i <= s.len(),
        all_digits(s),
    ensures
        decimal_value(s.subrange(0, i)) <= decimal_value(s),
    decreases s.len() - i,
{
    if i < s.len() {
        lemma_decimal_grows(s, i + 1);
        assert(s.subrange(0, i + 1).drop_last() =~= s.subrange(0, i));
    } else {
        assert(s.subrange(0, i) =~= s);
    }
}

/// Parses a decimal `u64` the way `str::parse::<u64>` does.
pub fn parse_u64(s: &[char]) -> (r: Option<u64>)
    ensures
        r == parse_u64_of(s@),
{
    let start: usize = if s.len() > 0 && s[0] == '+' { 1 } else { 0 };
    let ghost digits = if s@.len() > 0 && s@[0] == '+' { s@.drop_first() } else { s@ };
    assert(digits =~= s@.subrange(start as int, s@.len() as int));
    if start == s.len() {
        return None;
    }
    let mut v: u64 = 0;
    let mut i = start;
    assert(digits.subrange(0, 0) =~= Seq::<char>::empty());
    while i < s.len()
        invariant
            start <= i <= s@.len(),
            start < s@.len(),
            digits =~= s@.subrange(start as int, s@.len() as int),
            digits == (if s@.len() > 0 && s@[0] == '+' { s@.drop_first() } else { s@ }),
            forall|j: int| 0 <= j < i - start ==> '0' <= #[trigger] digits[j] <= '9',
            v as nat == decimal_value(digits.subrange(0, i - start)),
        decreases s@.len() - i,
    {
        let c = s[i];
        if !('0' <= c && c <= '9') {
            assert(digits[i - start] == c);
            return None;
        }
        let d = (c as u32 - '0' as u32) as u64;
        assert(digits.subrange(0, i - start + 1).drop_last() =~= digits.subrange(0, i - start));
        assert(digits.subrange(0, i - start + 1).last() == c);
        match v.checked_mul(10) {
            Some(t) => match t.checked_add(d) {
                Some(n) => {
                    v = n;
                },
                None => {
                    proof {
                        if all_digits(digits) {
                            lemma_decimal_grows(digits, i - start + 1);
                        }
                    }
                    return None;
                },
            },
            None => {
                proof {
                    if all_digits(digits) {
                        lemma_decimal_grows(digits, i - start + 1);
                    }
                }
                return None;
            },
        }
        i += 1;
    }
    assert(digits.subrange(0, i - start) =~= digits);
    Some(v)
}


/// A release tag, ordered: `v` then three dot-separated numbers, and nothing
/// else. Branches are interim pins and never win a version race.
pub open spec fn release_of(tag: Seq<char>) -> Option<(u64, u64, u64)> {
    if tag.len() == 0 || tag[0] != 'v' {
        None
    } else {
        let parts = split_on(tag.drop_first(), '.');
        if parts.len() == 3 && parse_u64_of(parts[0]) is Some && parse_u64_of(parts[1]) is Some
            && parse_u64_of(parts[2]) is Some {
            Some(
                (
                    parse_u64_of(parts[0]).unwrap(),
                    parse_u64_of(parts[1]).unwrap(),
                    parse_u64_of(parts[2]).unwrap(),
                ),
            )
        } else {
            None
        }
    }
}

pub fn release(tag: &[char]) -> (r: Option<(u64, u64, u64)>)
    ensures
        r == release_of(tag@),
{
    if tag.len() == 0 || tag[0] != 'v' {
        return None;
    }
    let parts = split_chars(tag, 1, tag.len(), '.');
    assert(tag@.subrange(1, tag@.len() as int) =~= tag@.drop_first());
    proof {
        crate::text::lemma_split_on_nonempty(tag@.drop_first(), '.');
    }
    let a = match parse_u64(parts[0].as_slice()) {
        Some(v) => v,
        None => return None,
    };
    if parts.len() < 2 {
        return None;
    }
    let b = match parse_u64(parts[1].as_slice()) {
        Some(v) => v,
        None => return None,
    };
    if parts.len() < 3 {
        return None;
    }
    let c = match parse_u64(parts[2].as_slice()) {
        Some(v) => v,
        None => return None,
    };
    if parts.len() > 3 {
        return None;
    }
    Some((a, b, c))
}

/// Whether version `a` is later than version `b`.
pub open spec fn later(a: (u64, u64, u64), b: (u64, u64, u64)) -> bool {
    a.0 > b.0 || (a.0 == b.0 && (a.1 > b.1 || (a.1 == b.1 && a.2 > b.2)))
}

/// What a line of `git ls-remote --tags` names, when it names a release:
/// the version, the tag and the sha.
pub open spec fn listed_release(line: Seq<char>) -> Option<((u64, u64, u64), Seq<char>, Seq<char>)> {
    let t = index_of(line, '\t');
    if t < 0 {
        None
    } else {
        let sha = line.subrange(0, t);
        let reference = line.subrange(t + 1, line.len() as int);
        if !has_prefix(reference, "refs/tags/"@) {
            None
        } else {
            let full = reference.subrange(10, reference.len() as int);
            let tag = if has_suffix(full, "^{}"@) {
                full.subrange(0, full.len() - 3)
            } else {
                full
            };
            match release_of(tag) {
                None => None,
                Some(v) => Some((v, tag, sha)),
            }
        }
    }
}

/// The highest release among these lines; the first listed wins a tie.
pub open spec fn best_listed(lines: Seq<Seq<char>>) -> Option<((u64, u64, u64), Seq<char>, Seq<char>)>
    decreases lines.len(),
{
    if lines.len() == 0 {
        None
    } else {
        let prev = best_listed(lines.drop_last());
        match listed_release(lines.last()) {
            None => prev,
            Some(c) => if prev is None || later(c.0, prev.unwrap().0) {
                Some(c)
            } else {
                prev
            },
        }
    }
}

fn line_release(line: &Vec<char>) -> (r: Option<((u64, u64, u64), Vec<char>, Vec<char>)>)
    ensures
        match r {
            None => listed_release(line@) is None,
            Some((v, tag, sha)) => listed_release(line@) == Some((v, tag@, sha@)),
        },
{
    let n = line.len();
    let t = match find_char(line.as_slice(), '\t') {
        None => return None,
        Some(t) => t,
    };
    let sha = slice_vec(line.as_slice(), 0, t);
    let refs = chars_of("refs/tags/");
    proof {
        reveal_strlit("refs/tags/");
        reveal_strlit("^{}");
    }
    if !prefix_at(line.as_slice(), t + 1, refs.as_slice()) {
        return None;
    }
    let start = t + 1 + 10;
    let hat = chars_of("^{}");
    let end = if suffix_at(line.as_slice(), start, line.len(), hat.as_slice()) {
        line.len() - 3
    } else {
        line.len()
    };
    let ghost reference = line@.subrange(t + 1, line@.len() as int);
    assert(reference.subrange(10, reference.len() as int) =~= line@.subrange(start as int, line@.len() as int));
    let tag = slice_vec(line.as_slice(), start, end);
    let ghost full = reference.subrange(10, reference.len() as int);
    let ghost stag = if has_suffix(full, "^{}"@) { full.subrange(0, full.len() - 3) } else { full };
    assert(tag@ =~= stag);
    assert(sha@ =~= line@.subrange(0, t as int));
    match release(tag.as_slice()) {
        None => None,
        Some(v) => Some((v, tag, sha)),
    }
}

/// The highest `vX.Y.Z` tag in a `git ls-remote --tags` listing, with its sha.
pub fn best_release(listing: &str) -> (r: Option<(String, String)>)
    ensures
        match r {
            None => best_listed(lines_of(listing@)) is None,
            Some((tag, sha)) => best_listed(lines_of(listing@)) matches Some((_, t, s)) && tag@ == t
                && sha@ == s,
        },
{
    let text = chars_of(listing);
    let all = lines(text.as_slice());
    let ghost ls = lines_of(listing@);
    let mut best: Option<((u64, u64, u64), Vec<char>, Vec<char>)> = None;
    let mut i: usize = 0;
    assert(ls.subrange(0, 0) =~= Seq::<Seq<char>>::empty());
    while i < all.len()
        invariant
            i <= all@.len() == ls.len(),
            forall|j: int| 0 <= j < all@.len() ==> #[trigger] all@[j]@ == ls[j],
            match best {
                None => best_listed(ls.subrange(0, i as int)) is None,
                Some((v, t, s)) => best_listed(ls.subrange(0, i as int)) == Some((v, t@, s@)),
            },
        decreases all@.len() - i,
    {
        assert(ls.subrange(0, i + 1).drop_last() =~= ls.subrange(0, i as int));
        assert(ls.subrange(0, i + 1).last() == all@[i as int]@);
        match line_release(&all[i]) {
            None => {},
            Some(c) => {
                let replace = match &best {
                    None => true,
                    Some(p) => (c.0).0 > (p.0).0 || ((c.0).0 == (p.0).0 && ((c.0).1 > (p.0).1
                        || ((c.0).1 == (p.0).1 && (c.0).2 > (p.0).2))),
                };
                if replace {
                    best = Some(c);
                }
            },
        }
        i += 1;
    }
    assert(ls.subrange(0, i as int) =~= ls);
    match best {
        None => None,
        Some((_, tag, sha)) => Some((string_from_chars(tag.as_slice()), string_from_chars(sha.as_slice()))),
    }
}


/// `base` with `rel` pushed onto it, as `Path::join` does on Unix: an
/// absolute `rel` replaces the base, and a separator goes between the two
/// unless the base is empty or already ends in one.
pub open spec fn joined_path(base: Seq<char>, rel: Seq<char>) -> Seq<char> {
    if rel.len() > 0 && rel[0] == '/' {
        rel
    } else if base.len() > 0 && base.last() != '/' {
        base + seq!['/'] + rel
    } else {
        base + rel
    }
}

/// The cache is keyed by name and sha, so two versions coexist and a fetched
/// tree is never mistaken for a different one.
pub fn cached(cache: &str, name: &str, sha: &str) -> (r: String)
    ensures
        r@ == joined_path(cache@, name@ + seq!['@'] + sha@),
{
    let mut rel: Vec<char> = Vec::new();
    push_str(&mut rel, name);
    rel.push('@');
    push_str(&mut rel, sha);
    assert(rel@ =~= name@ + seq!['@'] + sha@);
    let base = chars_of(cache);
    if rel.len() > 0 && rel[0] == '/' {
        return string_from_chars(rel.as_slice());
    }
    let mut out: Vec<char> = Vec::new();
    push_str(&mut out, cache);
    if base.len() > 0 && base[base.len() - 1] != '/' {
        out.push('/');
    }
    let ghost mid = out@;
    let mut i: usize = 0;
    while i < rel.len()
        invariant
            i <= rel@.len(),
            out@ == mid + rel@.subrange(0, i as int),
        decreases rel@.len() - i,
    {
        out.push(rel[i]);
        i += 1;
        assert(out@ =~= mid + rel@.subrange(0, i as int));
    }
    assert(rel@.subrange(0, i as int) =~= rel@);
    string_from_chars(out.as_slice())
}

/// The longest start of `s` that fits in `n` bytes.
pub open spec fn byte_prefix(s: Seq<char>, n: nat) -> Seq<char>
    decreases s.len(),
{
    if s.len() == 0 || utf8_width(s[0]) > n {
        Seq::<char>::empty()
    } else {
        seq![s[0]] + byte_prefix(s.drop_first(), (n - utf8_width(s[0])) as nat)
    }
}

/// Whether `s` can be cut after its first `n` bytes (or is shorter): what
/// `&s[..s.len().min(n)]` needs in order not to panic.
pub open spec fn cuts_at(s: Seq<char>, n: nat) -> bool {
    byte_len(byte_prefix(s, n)) == if byte_len(s) < n {
        byte_len(s)
    } else {
        n
    }
}

fn push_byte_prefix(out: &mut Vec<char>, s: &[char], n: usize)
    ensures
        final(out)@ == old(out)@ + byte_prefix(s@, n as nat),
{
    let mut i: usize = 0;
    let mut left: usize = n;
    let ghost start = out@;
    assert(s@.subrange(0, 0) =~= Seq::<char>::empty());
    assert(s@.subrange(0, s@.len() as int) =~= s@);
    while i < s.len() && utf8_width_of(s[i]) <= left
        invariant
            i <= s@.len(),
            left <= n,
            byte_prefix(s@, n as nat) == s@.subrange(0, i as int) + byte_prefix(s@.subrange(i as int, s@.len() as int), left as nat),
            out@ == start + s@.subrange(0, i as int),
        decreases s@.len() - i,
    {
        let ghost rest = s@.subrange(i as int, s@.len() as int);
        assert(rest[0] == s@[i as int]);
        assert(rest.drop_first() =~= s@.subrange(i + 1, s@.len() as int));
        assert(s@.subrange(0, i + 1) =~= s@.subrange(0, i as int) + seq![s@[i as int]]);
        left = left - utf8_width_of(s[i]);
        out.push(s[i]);
        i += 1;
    }
    let ghost rest = s@.subrange(i as int, s@.len() as int);
    assert(byte_prefix(rest, left as nat) =~= Seq::<char>::empty());
    assert(byte_prefix(s@, n as nat) =~= s@.subrange(0, i as int));
}

/// The stale mark `list` puts after a pin: the newer release when the
/// remote answers with one, nothing when it answers with the pinned tag,
/// and `(unreachable)` when it does not answer.
pub open spec fn stale_mark(tag: Seq<char>, latest: Result<String, String>) -> Seq<char> {
    match latest {
        Ok(l) => if l@ != tag {
            " (stale: "@ + l@ + " is out)"@
        } else {
            Seq::<char>::empty()
        },
        Err(_) => " (unreachable)"@,
    }
}

/// One pin, as `list` writes it: name, tag, the sha's first twelve bytes,
/// and the mark.
pub open spec fn list_line(entry: (String, (String, String)), latest: Result<String, String>) -> Seq<char> {
    entry.0@ + seq![' '] + (entry.1).0@ + seq![' '] + byte_prefix((entry.1).1@, 12) + stale_mark((entry.1).0@, latest)
        + "\n"@
}

pub open spec fn list_lines(locked: Seq<(String, (String, String))>, latest: Seq<Result<String, String>>) -> Seq<char>
    decreases locked.len(),
{
    if locked.len() == 0 || latest.len() == 0 {
        Seq::<char>::empty()
    } else {
        list_lines(locked.drop_last(), latest.drop_last()) + list_line(locked.last(), latest.last())
    }
}

/// `kanso list` — what the lock pins, in the lock's order, with each pin's
/// staleness as the remote answered it (`latest[i]` for `locked[i]`).
pub fn list(locked: &Vec<(String, (String, String))>, latest: &Vec<Result<String, String>>) -> (r: Result<String, String>)
    requires
        latest@.len() == locked@.len(),
        forall|i: int| 0 <= i < locked@.len() ==> cuts_at((#[trigger] locked@[i].1).1@, 12),
    ensures
        r matches Ok(text) && text@ == if locked@.len() == 0 {
            "hako.lock pins nothing \u{2014} run `kanso install`\n"@
        } else {
            list_lines(locked@, latest@)
        },
{
    if locked.len() == 0 {
        return Ok(string_of("hako.lock pins nothing \u{2014} run `kanso install`\n"));
    }
    let mut out: Vec<char> = Vec::new();
    let mut i: usize = 0;
    assert(locked@.subrange(0, 0) =~= Seq::<(String, (String, String))>::empty());
    while i < locked.len()
        invariant
            i <= locked@.len() == latest@.len(),
            out@ == list_lines(locked@.subrange(0, i as int), latest@.subrange(0, i as int)),
        decreases locked@.len() - i,
    {
        let (name, (tag, sha)) = &locked[i];
        let ghost before = out@;
        push_str(&mut out, name.as_str());
        out.push(' ');
        push_str(&mut out, tag.as_str());
        out.push(' ');
        let sha_chars = chars_of(sha.as_str());
        push_byte_prefix(&mut out, sha_chars.as_slice(), 12);
        let ghost head = out@;
        assert(head =~= before + name@ + seq![' '] + tag@ + seq![' '] + byte_prefix(sha@, 12));
        match &latest[i] {
            Ok(l) => {
                if !crate::text::same_text(l.as_str(), tag.as_str()) {
                    push_str(&mut out, " (stale: ");
                    push_str(&mut out, l.as_str());
                    push_str(&mut out, " is out)");
                }
            },
            Err(_) => {
                push_str(&mut out, " (unreachable)");
            },
        }
        assert(out@ =~= head + stale_mark(tag@, latest@[i as int]));
        push_str(&mut out, "\n");
        assert(locked@.subrange(0, i + 1).drop_last() =~= locked@.subrange(0, i as int));
        assert(latest@.subrange(0, i + 1).drop_last() =~= latest@.subrange(0, i as int));
        assert(out@ =~= before + list_line(locked@[i as int], latest@[i as int]));
        i += 1;
    }
    assert(locked@.subrange(0, i as int) =~= locked@);
    assert(latest@.subrange(0, i as int) =~= latest@);
    Ok(string_from_chars(out.as_slice()))
}

} // verus!

verus! {

/// The release a listing settles on is one it lists, and no release it
/// lists is later: `install` and `update` walk to the highest tag.
pub proof fn law_best_release_is_highest(lines: Seq<Seq<char>>)
    ensures
        best_listed(lines) is None <==> forall|i: int| 0 <= i < lines.len() ==> (#[trigger] listed_release(lines[i])) is None,
        best_listed(lines) matches Some(b) ==> exists|i: int| 0 <= i < lines.len() && #[trigger] listed_release(lines[i]) == Some(b),
        best_listed(lines) matches Some(b) ==> forall|i: int|
            0 <= i < lines.len() && (#[trigger] listed_release(lines[i])) is Some ==> !later(listed_release(lines[i])->Some_0.0, b.0),
    decreases lines.len(),
{
    if lines.len() > 0 {
        let init = lines.drop_last();
        law_best_release_is_highest(init);
        assert forall|i: int| 0 <= i < init.len() implies #[trigger] listed_release(init[i]) == listed_release(lines[i]) by {
            assert(init[i] == lines[i]);
        }
        let last = lines.len() - 1;
        assert(lines.last() == lines[last]);
        let prev = best_listed(init);
        let here = listed_release(lines[last]);
        let best = best_listed(lines);
        // every line is the last one or one of the earlier ones
        assert forall|i: int| 0 <= i < lines.len() && i != last implies #[trigger] listed_release(lines[i])
            == listed_release(init[i]) by {
            assert(init[i] == lines[i]);
        }
        if best is None {
            assert forall|i: int| 0 <= i < lines.len() implies (#[trigger] listed_release(lines[i])) is None by {
                if i != last {
                    assert(listed_release(lines[i]) == listed_release(init[i]));
                }
            }
        } else {
            let b = best->Some_0;
            if best == here {
                assert(listed_release(lines[last]) == Some(b));
            } else {
                assert(best == prev);
                let w = choose|i: int| 0 <= i < init.len() && #[trigger] listed_release(init[i]) == Some(b);
                assert(listed_release(lines[w]) == Some(b));
            }
            assert forall|i: int|
                0 <= i < lines.len() && (#[trigger] listed_release(lines[i])) is Some implies !later(
                listed_release(lines[i])->Some_0.0,
                b.0,
            ) by {
                if i != last {
                    assert(listed_release(lines[i]) == listed_release(init[i]));
                }
            }
        }
    }
}

/// The release a listing settles on is at least every release it lists,
/// comparing (major, minor, patch) in that order; and it is the first of
/// the highest, so a later line with the same version does not replace it.
pub proof fn law_best_release_is_maximal(lines: Seq<Seq<char>>)
    ensures
        best_listed(lines) matches Some(b) ==> forall|i: int|
            0 <= i < lines.len() && (#[trigger] listed_release(lines[i])) is Some ==> ({
                let v = listed_release(lines[i])->Some_0.0;
                v.0 < b.0.0 || (v.0 == b.0.0 && (v.1 < b.0.1 || (v.1 == b.0.1 && v.2 <= b.0.2)))
            }),
        best_listed(lines) matches Some(b) ==> exists|w: int|
            0 <= w < lines.len() && #[trigger] listed_release(lines[w]) == Some(b) && forall|i: int|
                0 <= i < w && (#[trigger] listed_release(lines[i])) is Some ==> listed_release(lines[i])->Some_0.0 != b.0,
    decreases lines.len(),
{
    law_best_release_is_highest(lines);
    if lines.len() > 0 {
        let init = lines.drop_last();
        law_best_release_is_maximal(init);
        law_best_release_is_highest(init);
        let last = lines.len() - 1;
        assert forall|i: int| 0 <= i < init.len() implies #[trigger] listed_release(init[i]) == listed_release(lines[i]) by {
            assert(init[i] == lines[i]);
        }
        assert(lines.last() == lines[last]);
        let best = best_listed(lines);
        let prev = best_listed(init);
        if best is Some {
            let b = best->Some_0;
            if prev is Some && best == prev {
                let w = choose|w: int|
                    0 <= w < init.len() && #[trigger] listed_release(init[w]) == Some(b) && forall|i: int|
                        0 <= i < w && (#[trigger] listed_release(init[i])) is Some ==> listed_release(init[i])->Some_0.0 != b.0;
                assert(listed_release(lines[w]) == Some(b));
                assert forall|i: int| 0 <= i < w && (#[trigger] listed_release(lines[i])) is Some implies listed_release(
                    lines[i],
                )->Some_0.0 != b.0 by {
                    assert(listed_release(lines[i]) == listed_release(init[i]));
                }
            } else {
                assert(listed_release(lines[last]) == Some(b));
                assert forall|i: int| 0 <= i < last && (#[trigger] listed_release(lines[i])) is Some implies listed_release(
                    lines[i],
                )->Some_0.0 != b.0 by {
                    assert(listed_release(lines[i]) == listed_release(init[i]));
                    if prev is Some {
                        assert(!later(listed_release(init[i])->Some_0.0, prev->Some_0.0));
                    } else {
                        assert(listed_release(init[i]) is None);
                    }
                }
            }
        }
    }
}

} // verus!
