//! `hako.lock`, read back: one pin per line, `name tag sha`, and the names
//! kept in order the way a sorted map keeps them.

use vstd::prelude::*;
use crate::text::{
    chars_of, is_space, is_whitespace, lemma_seq_lt_irreflexive, lemma_seq_lt_total,
    lemma_seq_lt_transitive, lines, lines_of, seq_lt, string_from_chars, text_less,
};

verus! {

/// The runs of non-whitespace characters in `s`, in order: what
/// `str::split_whitespace` yields.
pub open spec fn words(s: Seq<char>) -> Seq<Seq<char>>
    decreases s.len(),
{
    if s.len() == 0 {
        Seq::empty()
    } else {
        let w = words(s.drop_last());
        let c = s.last();
        if is_space(c) {
            w
        } else if s.len() >= 2 && !is_space(s[s.len() - 2]) && w.len() > 0 {
            w.update(w.len() - 1, w.last().push(c))
        } else {
            w.push(seq![c])
        }
    }
}

/// The words of `s`.
pub fn words_of(s: &[char]) -> (r: Vec<Vec<char>>)
    ensures
        r@.len() == words(s@).len(),
        forall|i: int| 0 <= i < r@.len() ==> #[trigger] r@[i]@ == words(s@)[i],
{
    let mut done: Vec<Vec<char>> = Vec::new();
    let mut cur: Vec<char> = Vec::new();
    let mut i: usize = 0;
    assert(s@.subrange(0, 0) =~= Seq::<char>::empty());
    while i < s.len()
        invariant
            i <= s@.len(),
            ({
                let w = words(s@.subrange(0, i as int));
                &&& cur@.len() > 0 <==> (i > 0 && !is_space(s@[i - 1]))
                &&& w.len() == done@.len() + if cur@.len() > 0 { 1int } else { 0int }
                &&& forall|j: int| 0 <= j < done@.len() ==> #[trigger] done@[j]@ == w[j]
                &&& cur@.len() > 0 ==> cur@ == w.last()
            }),
        decreases s@.len() - i,
    {
        let c = s[i];
        let ghost pre = s@.subrange(0, i as int);
        assert(s@.subrange(0, i + 1).drop_last() =~= pre);
        assert(s@.subrange(0, i + 1).last() == c);
        if i > 0 {
            assert(s@.subrange(0, i + 1)[i - 1] == s@[i - 1]);
        }
        if is_whitespace(c) {
            if cur.len() > 0 {
                done.push(cur);
                cur = Vec::new();
            }
        } else {
            cur.push(c);
        }
        i += 1;
    }
    if cur.len() > 0 {
        done.push(cur);
    }
    assert(s@.subrange(0, i as int) =~= s@);
    done
}

/// A lock line's pin: exactly three words, name, tag and sha.
pub open spec fn lock_entry(line: Seq<char>) -> Option<(Seq<char>, Seq<char>, Seq<char>)> {
    let f = words(line);
    if f.len() == 3 {
        Some((f[0], f[1], f[2]))
    } else {
        None
    }
}

/// The pin the lock's lines give `name`: the last line that names it wins.
pub open spec fn lock_pin(lines: Seq<Seq<char>>, name: Seq<char>) -> Option<(Seq<char>, Seq<char>)>
    decreases lines.len(),
{
    if lines.len() == 0 {
        None
    } else {
        match lock_entry(lines.last()) {
            Some((n, t, s)) => if n == name {
                Some((t, s))
            } else {
                lock_pin(lines.drop_last(), name)
            },
            None => lock_pin(lines.drop_last(), name),
        }
    }
}

pub type Pins = Vec<(String, (String, String))>;

/// Names strictly increasing: sorted, and each once.
pub open spec fn sorted_names(v: Seq<(String, (String, String))>) -> bool {
    forall|i: int, j: int| 0 <= i < j < v.len() ==> seq_lt((#[trigger] v[i]).0@, (#[trigger] v[j]).0@)
}

/// The pin `v` holds for `name`, if it holds one.
pub open spec fn pin_in(v: Seq<(String, (String, String))>, name: Seq<char>) -> Option<(Seq<char>, Seq<char>)>
    decreases v.len(),
{
    if v.len() == 0 {
        None
    } else if v[0].0@ == name {
        Some((v[0].1.0@, v[0].1.1@))
    } else {
        pin_in(v.drop_first(), name)
    }
}

proof fn lemma_pin_at(v: Seq<(String, (String, String))>, at: int)
    requires
        sorted_names(v),
        0 <= at < v.len(),
    ensures
        pin_in(v, v[at].0@) == Some((v[at].1.0@, v[at].1.1@)),
    decreases v.len(),
{
    if at > 0 {
        assert(seq_lt(v[0].0@, v[at].0@));
        lemma_seq_lt_irreflexive(v[at].0@);
        let rest = v.drop_first();
        assert(rest[at - 1] == v[at]);
        assert forall|i: int, j: int| 0 <= i < j < rest.len() implies seq_lt((#[trigger] rest[i]).0@, (#[trigger] rest[j]).0@) by {
            assert(rest[i] == v[i + 1] && rest[j] == v[j + 1]);
        }
        lemma_pin_at(rest, at - 1);
    }
}

proof fn lemma_pin_absent(v: Seq<(String, (String, String))>, name: Seq<char>)
    requires
        forall|i: int| 0 <= i < v.len() ==> (#[trigger] v[i]).0@ != name,
    ensures
        pin_in(v, name) is None,
    decreases v.len(),
{
    if v.len() > 0 {
        let rest = v.drop_first();
        assert(v[0].0@ != name);
        assert forall|i: int| 0 <= i < rest.len() implies (#[trigger] rest[i]).0@ != name by {
            assert(rest[i] == v[i + 1]);
        }
        lemma_pin_absent(rest, name);
    }
}

/// Puts a pin in its place by name, in place of any pin the name had.
fn put_pin(v: &mut Pins, name: String, tag: String, sha: String)
    requires
        sorted_names(old(v)@),
    ensures
        sorted_names(final(v)@),
        forall|k: Seq<char>| #[trigger] pin_in(final(v)@, k) == if k == name@ {
            Some((tag@, sha@))
        } else {
            pin_in(old(v)@, k)
        },
{
    let ghost nm = name@;
    let ghost tg = tag@;
    let ghost sh = sha@;
    let mut p: usize = 0;
    while p < v.len() && text_less(v[p].0.as_str(), name.as_str())
        invariant
            p <= v@.len(),
            v@ == old(v)@,
            name@ == nm,
            forall|j: int| 0 <= j < p ==> seq_lt((#[trigger] v@[j]).0@, nm),
        decreases v@.len() - p,
    {
        p += 1;
    }
    let ghost before = v@;
    if p < v.len() && crate::text::same_text(v[p].0.as_str(), name.as_str()) {
        v.set(p, (name, (tag, sha)));
        proof {
            let after = v@;
            assert forall|i: int, j: int| 0 <= i < j < after.len() implies seq_lt((#[trigger] after[i]).0@, (#[trigger] after[j]).0@) by {
                assert(before[i].0@ == after[i].0@ && before[j].0@ == after[j].0@);
            }
            assert forall|k: Seq<char>| #[trigger] pin_in(after, k) == if k == nm {
                Some((tg, sh))
            } else {
                pin_in(before, k)
            } by {
                if k == nm {
                    lemma_pin_at(after, p as int);
                } else {
                    if exists|i: int| 0 <= i < before.len() && (#[trigger] before[i]).0@ == k {
                        let i = choose|i: int| 0 <= i < before.len() && (#[trigger] before[i]).0@ == k;
                        lemma_pin_at(before, i);
                        lemma_pin_at(after, i);
                    } else {
                        assert forall|i: int| 0 <= i < after.len() implies (#[trigger] after[i]).0@ != k by {
                            if i != p {
                                assert(after[i] == before[i]);
                            }
                        }
                        lemma_pin_absent(before, k);
                        lemma_pin_absent(after, k);
                    }
                }
            }
        }
    } else {
        proof {
            if p < before.len() {
                lemma_seq_lt_total(before[p as int].0@, nm);
            }
        }
        v.insert(p, (name, (tag, sha)));
        proof {
            let after = v@;
            assert(after[p as int].0@ == nm);
            assert forall|i: int| 0 <= i < after.len() && i != p implies (#[trigger] after[i]) == if i < p {
                before[i]
            } else {
                before[i - 1]
            } by {}
            // everything after the new pin sorts after it
            assert forall|j: int| p < j < after.len() implies seq_lt(nm, (#[trigger] after[j]).0@) by {
                if j - 1 > p {
                    assert(seq_lt(before[p as int].0@, before[j - 1].0@));
                    lemma_seq_lt_transitive(nm, before[p as int].0@, before[j - 1].0@);
                }
            }
            assert forall|i: int, j: int| 0 <= i < j < after.len() implies seq_lt((#[trigger] after[i]).0@, (#[trigger] after[j]).0@) by {
                if j == p {
                } else if i == p {
                } else if i < p && p < j {
                    lemma_seq_lt_transitive(after[i].0@, nm, after[j].0@);
                } else if j < p {
                    assert(after[i] == before[i] && after[j] == before[j]);
                } else {
                    assert(after[i] == before[i - 1] && after[j] == before[j - 1]);
                }
            }
            assert forall|k: Seq<char>| #[trigger] pin_in(after, k) == if k == nm {
                Some((tg, sh))
            } else {
                pin_in(before, k)
            } by {
                if k == nm {
                    lemma_pin_at(after, p as int);
                } else {
                    if exists|i: int| 0 <= i < before.len() && (#[trigger] before[i]).0@ == k {
                        let i = choose|i: int| 0 <= i < before.len() && (#[trigger] before[i]).0@ == k;
                        lemma_pin_at(before, i);
                        if i < p {
                            lemma_pin_at(after, i);
                        } else {
                            assert(after[i + 1] == before[i]);
                            lemma_pin_at(after, i + 1);
                        }
                    } else {
                        assert forall|i: int| 0 <= i < after.len() implies (#[trigger] after[i]).0@ != k by {
                            if i < p {
                                assert(after[i] == before[i]);
                            } else if i > p {
                                assert(after[i] == before[i - 1]);
                            }
                        }
                        lemma_pin_absent(before, k);
                        lemma_pin_absent(after, k);
                    }
                }
            }
        }
    }
}

/// The pins a lock's text holds, by name in sorted order: each name once,
/// with the tag and sha of the last line that names it. A line that is not
/// three words pins nothing.
pub fn read_lock(text: &str) -> (r: Pins)
    ensures
        sorted_names(r@),
        forall|k: Seq<char>| #[trigger] pin_in(r@, k) == lock_pin(lines_of(text@), k),
{
    let chars = chars_of(text);
    let all = lines(chars.as_slice());
    let ghost ls = lines_of(text@);
    let mut out: Pins = Vec::new();
    let mut n: usize = 0;
    assert(ls.subrange(0, 0) =~= Seq::<Seq<char>>::empty());
    while n < all.len()
        invariant
            n <= all@.len() == ls.len(),
            ls == lines_of(text@),
            forall|i: int| 0 <= i < all@.len() ==> #[trigger] all@[i]@ == ls[i],
            sorted_names(out@),
            forall|k: Seq<char>| #[trigger] pin_in(out@, k) == lock_pin(ls.subrange(0, n as int), k),
        decreases all@.len() - n,
    {
        let line = &all[n];
        let ghost pre = ls.subrange(0, n + 1);
        assert(pre.drop_last() =~= ls.subrange(0, n as int));
        assert(pre.last() == line@);
        let f = words_of(line.as_slice());
        if f.len() == 3 {
            let name = string_from_chars(f[0].as_slice());
            let tag = string_from_chars(f[1].as_slice());
            let sha = string_from_chars(f[2].as_slice());
            put_pin(&mut out, name, tag, sha);
        }
        n += 1;
    }
    assert(ls.subrange(0, n as int) =~= ls);
    out
}

} // verus!
