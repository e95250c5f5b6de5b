//! Which hakos a program imports: read from its sources directly rather
//! than by compiling them, because installing is what makes compiling
//! possible.

use vstd::prelude::*;
use crate::text::{
    chars_of, find_char, has_prefix, index_of, lemma_seq_lt_total, lemma_seq_lt_transitive,
    lines, lines_of, prefix_at, seq_lt, slice_vec, string_from_chars, text_less,
};
use super::{split_name, split_name_of};

verus! {

/// The text before the first `"` of `s`.
pub open spec fn before_quote(s: Seq<char>) -> Seq<char> {
    if index_of(s, '"') < 0 {
        s
    } else {
        s.subrange(0, index_of(s, '"'))
    }
}

/// The hako a source line imports: a line `import "owner/repo..."` whose
/// path is neither a std module nor a local one.
pub open spec fn import_name(line: Seq<char>) -> Option<Seq<char>> {
    if !has_prefix(line, "import \""@) {
        None
    } else {
        let path = before_quote(line.subrange(8, line.len() as int));
        if has_prefix(path, "std/"@) || has_prefix(path, "."@) {
            None
        } else {
            match split_name_of(path) {
                Some((name, _)) => Some(name),
                None => None,
            }
        }
    }
}

/// Whether some line of some source imports the hako `name`.
pub open spec fn imported(sources: Seq<String>, name: Seq<char>) -> bool {
    exists|s: int, l: int|
        0 <= s < sources.len() && 0 <= l < lines_of(sources[s]@).len() && #[trigger] import_name(
            lines_of(sources[s]@)[l],
        ) == Some(name)
}

/// Names strictly increasing: sorted, and each once.
pub open spec fn sorted_set(v: Seq<String>) -> bool {
    forall|i: int, j: int| 0 <= i < j < v.len() ==> seq_lt((#[trigger] v[i])@, (#[trigger] v[j])@)
}

pub open spec fn holds(v: Seq<String>, name: Seq<char>) -> bool {
    exists|i: int| 0 <= i < v.len() && (#[trigger] v[i])@ == name
}

fn import_name_of(line: &[char]) -> (r: Option<String>)
    ensures
        match r {
            None => import_name(line@) is None,
            Some(n) => import_name(line@) == Some(n@),
        },
{
    let head = chars_of("import \"");
    proof {
        reveal_strlit("import \"");
        assert(line@.subrange(0, line@.len() as int) =~= line@);
    }
    if !prefix_at(line, 0, head.as_slice()) {
        return None;
    }
    let rest = slice_vec(line, 8, line.len());
    let end = match find_char(rest.as_slice(), '"') {
        Some(q) => q,
        None => rest.len(),
    };
    let path = slice_vec(rest.as_slice(), 0, end);
    assert(path@ == before_quote(rest@)) by {
        if index_of(rest@, '"') < 0 {
            assert(rest@.subrange(0, rest@.len() as int) =~= rest@);
        }
    }
    let std = chars_of("std/");
    let dot = chars_of(".");
    assert(path@.subrange(0, path@.len() as int) =~= path@);
    if prefix_at(path.as_slice(), 0, std.as_slice()) || prefix_at(path.as_slice(), 0, dot.as_slice()) {
        return None;
    }
    let text = string_from_chars(path.as_slice());
    match split_name(text.as_str()) {
        Some((name, _)) => Some(name),
        None => None,
    }
}

/// Puts `name` in its place, once.
fn put_name(v: &mut Vec<String>, name: String)
    requires
        sorted_set(old(v)@),
    ensures
        sorted_set(final(v)@),
        forall|k: Seq<char>| #[trigger] holds(final(v)@, k) == (k == name@ || holds(old(v)@, k)),
{
    let ghost nm = name@;
    let mut p: usize = 0;
    while p < v.len() && text_less(v[p].as_str(), name.as_str())
        invariant
            p <= v@.len(),
            v@ == old(v)@,
            name@ == nm,
            forall|j: int| 0 <= j < p ==> seq_lt((#[trigger] v@[j])@, nm),
        decreases v@.len() - p,
    {
        p += 1;
    }
    let ghost before = v@;
    if p < v.len() && crate::text::same_text(v[p].as_str(), name.as_str()) {
        assert(holds(before, nm));
        return;
    }
    proof {
        if p < before.len() {
            lemma_seq_lt_total(before[p as int]@, nm);
        }
    }
    v.insert(p, name);
    proof {
        let after = v@;
        assert(after[p as int]@ == nm);
        assert forall|i: int| 0 <= i < after.len() && i != p implies (#[trigger] after[i]) == if i < p {
            before[i]
        } else {
            before[i - 1]
        } by {}
        assert forall|j: int| p < j < after.len() implies seq_lt(nm, (#[trigger] after[j])@) by {
            if j - 1 > p {
                assert(seq_lt(before[p as int]@, before[j - 1]@));
                lemma_seq_lt_transitive(nm, before[p as int]@, before[j - 1]@);
            }
        }
        assert forall|i: int, j: int| 0 <= i < j < after.len() implies seq_lt((#[trigger] after[i])@, (#[trigger] after[j])@) by {
            if j == p {
            } else if i == p {
            } else if i < p && p < j {
                lemma_seq_lt_transitive(after[i]@, nm, after[j]@);
            } else if j < p {
                assert(after[i] == before[i] && after[j] == before[j]);
            } else {
                assert(after[i] == before[i - 1] && after[j] == before[j - 1]);
            }
        }
        assert forall|k: Seq<char>| #[trigger] holds(after, k) == (k == nm || holds(before, k)) by {
            if holds(before, k) {
                let i = choose|i: int| 0 <= i < before.len() && (#[trigger] before[i])@ == k;
                if i < p {
                    assert(after[i] == before[i]);
                } else {
                    assert(after[i + 1] == before[i]);
                }
            }
            if k == nm {
                assert(after[p as int]@ == k);
            }
            if holds(after, k) {
                let i = choose|i: int| 0 <= i < after.len() && (#[trigger] after[i])@ == k;
                if i < p {
                    assert(after[i] == before[i]);
                } else if i > p {
                    assert(after[i] == before[i - 1]);
                }
            }
        }
    }
}

/// Every hako the sources import, by name, sorted and each once.
pub fn required(sources: &Vec<String>) -> (r: Vec<String>)
    ensures
        sorted_set(r@),
        forall|k: Seq<char>| #[trigger] holds(r@, k) == imported(sources@, k),
{
    let mut out: Vec<String> = Vec::new();
    let mut s: usize = 0;
    while s < sources.len()
        invariant
            s <= sources@.len(),
            sorted_set(out@),
            forall|k: Seq<char>| #[trigger] holds(out@, k) == imported(sources@.subrange(0, s as int), k),
        decreases sources@.len() - s,
    {
        let chars = chars_of(sources[s].as_str());
        let all = lines(chars.as_slice());
        let ghost ls = lines_of(sources@[s as int]@);
        let ghost done = sources@.subrange(0, s as int);
        let ghost upto = sources@.subrange(0, s + 1);
        let mut l: usize = 0;
        while l < all.len()
            invariant
                l <= all@.len() == ls.len(),
                ls == lines_of(sources@[s as int]@),
                s < sources@.len(),
                done == sources@.subrange(0, s as int),
                upto == sources@.subrange(0, s + 1),
                forall|i: int| 0 <= i < all@.len() ==> #[trigger] all@[i]@ == ls[i],
                sorted_set(out@),
                forall|k: Seq<char>| #[trigger] holds(out@, k) == (imported(done, k) || exists|j: int|
                    0 <= j < l && #[trigger] import_name(ls[j]) == Some(k)),
            decreases all@.len() - l,
        {
            let ghost before = out@;
            match import_name_of(all[l].as_slice()) {
                Some(name) => {
                    let ghost nm = name@;
                    put_name(&mut out, name);
                    proof {
                        assert forall|k: Seq<char>| #[trigger] holds(out@, k) == (imported(done, k) || exists|j: int|
                            0 <= j < l + 1 && #[trigger] import_name(ls[j]) == Some(k)) by {
                            if k == nm {
                                assert(import_name(ls[l as int]) == Some(k));
                            }
                        }
                    }
                },
                None => {
                    proof {
                        assert forall|k: Seq<char>| #[trigger] holds(out@, k) == (imported(done, k) || exists|j: int|
                            0 <= j < l + 1 && #[trigger] import_name(ls[j]) == Some(k)) by {
                            if exists|j: int| 0 <= j < l + 1 && #[trigger] import_name(ls[j]) == Some(k) {
                                let j = choose|j: int| 0 <= j < l + 1 && #[trigger] import_name(ls[j]) == Some(k);
                                assert(j != l);
                            }
                        }
                    }
                },
            }
            l += 1;
        }
        proof {
            assert forall|k: Seq<char>| #[trigger] holds(out@, k) == imported(upto, k) by {
                if imported(done, k) {
                    let (a, b) = choose|a: int, b: int|
                        0 <= a < done.len() && 0 <= b < lines_of(done[a]@).len() && #[trigger] import_name(
                            lines_of(done[a]@)[b],
                        ) == Some(k);
                    assert(upto[a] == done[a]);
                }
                if exists|j: int| 0 <= j < ls.len() && #[trigger] import_name(ls[j]) == Some(k) {
                    let j = choose|j: int| 0 <= j < ls.len() && #[trigger] import_name(ls[j]) == Some(k);
                    assert(upto[s as int] == sources@[s as int]);
                    assert(import_name(lines_of(upto[s as int]@)[j]) == Some(k));
                }
                if imported(upto, k) {
                    let (a, b) = choose|a: int, b: int|
                        0 <= a < upto.len() && 0 <= b < lines_of(upto[a]@).len() && #[trigger] import_name(
                            lines_of(upto[a]@)[b],
                        ) == Some(k);
                    if a < s {
                        assert(done[a] == upto[a]);
                        assert(import_name(lines_of(done[a]@)[b]) == Some(k));
                    } else {
                        assert(upto[a] == sources@[s as int]);
                        assert(import_name(ls[b]) == Some(k));
                    }
                }
            }
        }
        s += 1;
    }
    assert(sources@.subrange(0, s as int) =~= sources@);
    out
}

} // verus!
