//! Modules handed to the compiler as sources rather than read from disk,
//! by the path an import names. A program with no filesystem under it (a
//! library plus the entry file that runs it) arrives this way.

use vstd::prelude::*;

verus! {

/// A module's files as values: each file's name and its text.
pub open spec fn files_view(fs: Seq<(String, String)>) -> Seq<(Seq<char>, Seq<char>)> {
    fs.map_values(|f: (String, String)| (f.0@, f.1@))
}

/// The entries as values, in order.
pub open spec fn entries_view(es: Seq<(String, Vec<(String, String)>)>) -> Seq<(Seq<char>, Seq<(Seq<char>, Seq<char>)>)> {
    es.map_values(|e: (String, Vec<(String, String)>)| (e.0@, files_view(e.1@)))
}

/// The files the last entry for `key` holds.
pub open spec fn find(es: Seq<(Seq<char>, Seq<(Seq<char>, Seq<char>)>)>, key: Seq<char>) -> Option<
    Seq<(Seq<char>, Seq<char>)>,
>
    decreases es.len(),
{
    if es.len() == 0 {
        None
    } else if es.last().0 == key {
        Some(es.last().1)
    } else {
        find(es.drop_last(), key)
    }
}

/// The sources handed in, by module path.
pub struct HandedSources {
    entries: Vec<(String, Vec<(String, String)>)>,
}

impl View for HandedSources {
    type V = Map<Seq<char>, Seq<(Seq<char>, Seq<char>)>>;

    closed spec fn view(&self) -> Self::V {
        let es = entries_view(self.entries@);
        Map::new(|k: Seq<char>| find(es, k) is Some, |k: Seq<char>| find(es, k)->Some_0)
    }
}

proof fn lemma_find_update(
    es: Seq<(Seq<char>, Seq<(Seq<char>, Seq<char>)>)>,
    i: int,
    files: Seq<(Seq<char>, Seq<char>)>,
    other: Seq<char>,
)
    requires
        0 <= i < es.len(),
        forall|a: int, b: int| 0 <= a < b < es.len() ==> (#[trigger] es[a]).0 != (#[trigger] es[b]).0,
    ensures
        find(es.update(i, (es[i].0, files)), es[i].0) == Some(files),
        other != es[i].0 ==> find(es.update(i, (es[i].0, files)), other) == find(es, other),
    decreases es.len(),
{
    let up = es.update(i, (es[i].0, files));
    if i < es.len() - 1 {
        assert(up.drop_last() =~= es.drop_last().update(i, (es[i].0, files)));
        assert(es[es.len() - 1].0 != es[i].0);
        lemma_find_update(es.drop_last(), i, files, other);
    } else {
        assert(up.drop_last() =~= es.drop_last());
    }
}

proof fn lemma_find_push(
    es: Seq<(Seq<char>, Seq<(Seq<char>, Seq<char>)>)>,
    key: Seq<char>,
    files: Seq<(Seq<char>, Seq<char>)>,
    other: Seq<char>,
)
    ensures
        find(es.push((key, files)), key) == Some(files),
        other != key ==> find(es.push((key, files)), other) == find(es, other),
{
    assert(es.push((key, files)).drop_last() =~= es);
}

proof fn lemma_find_absent(es: Seq<(Seq<char>, Seq<(Seq<char>, Seq<char>)>)>, key: Seq<char>)
    requires
        forall|a: int| 0 <= a < es.len() ==> (#[trigger] es[a]).0 != key,
    ensures
        find(es, key) is None,
    decreases es.len(),
{
    if es.len() > 0 {
        lemma_find_absent(es.drop_last(), key);
    }
}

proof fn lemma_find_at(es: Seq<(Seq<char>, Seq<(Seq<char>, Seq<char>)>)>, i: int)
    requires
        0 <= i < es.len(),
        forall|a: int, b: int| 0 <= a < b < es.len() ==> (#[trigger] es[a]).0 != (#[trigger] es[b]).0,
    ensures
        find(es, es[i].0) == Some(es[i].1),
    decreases es.len(),
{
    if i < es.len() - 1 {
        assert(es.drop_last()[i] == es[i]);
        assert(es[es.len() - 1].0 != es[i].0);
        lemma_find_at(es.drop_last(), i);
    }
}

impl HandedSources {
    /// No two entries share a path.
    pub closed spec fn wf(&self) -> bool {
        let es = entries_view(self.entries@);
        forall|a: int, b: int| 0 <= a < b < es.len() ==> (#[trigger] es[a]).0 != (#[trigger] es[b]).0
    }

    pub fn new() -> (s: HandedSources)
        ensures
            s.wf(),
            s@ == Map::<Seq<char>, Seq<(Seq<char>, Seq<char>)>>::empty(),
    {
        let s = HandedSources { entries: Vec::new() };
        assert(s@ =~= Map::<Seq<char>, Seq<(Seq<char>, Seq<char>)>>::empty());
        s
    }

    /// The files handed in under the module an import names; the `./` a
    /// local import is spelled with comes off before the lookup.
    pub fn handed(&self, path: &str) -> (r: Option<&Vec<(String, String)>>)
        requires
            self.wf(),
        ensures
            ({
                let local = if crate::text::has_prefix(path@, "./"@) {
                    path@.subrange(2, path@.len() as int)
                } else {
                    path@
                };
                match r {
                    Some(fs) => self@.contains_key(local) && files_view(fs@) == self@[local],
                    None => !self@.contains_key(local),
                }
            }),
    {
        let chars = crate::text::chars_of(path);
        let dot = crate::text::chars_of("./");
        let from: usize = if crate::text::prefix_at(chars.as_slice(), 0, dot.as_slice()) {
            2
        } else {
            0
        };
        proof {
            reveal_strlit("./");
            assert(chars@.subrange(0, chars@.len() as int) =~= chars@);
        }
        let local = crate::text::slice_vec(chars.as_slice(), from, chars.len());
        let ghost want = if crate::text::has_prefix(path@, "./"@) {
            path@.subrange(2, path@.len() as int)
        } else {
            path@
        };
        assert(local@ == want);
        let ghost es = entries_view(self.entries@);
        let mut i: usize = 0;
        while i < self.entries.len()
            invariant
                i <= self.entries@.len(),
                es == entries_view(self.entries@),
                self.wf(),
                local@ == want,
                want == (if crate::text::has_prefix(path@, "./"@) {
                    path@.subrange(2, path@.len() as int)
                } else {
                    path@
                }),
                forall|a: int| 0 <= a < i ==> (#[trigger] es[a]).0 != local@,
            decreases self.entries@.len() - i,
        {
            let key = crate::text::chars_of(self.entries[i].0.as_str());
            if crate::text::same_chars(key.as_slice(), local.as_slice()) {
                proof {
                    lemma_find_at(es, i as int);
                }
                return Some(&self.entries[i].1);
            }
            i += 1;
        }
        proof {
            lemma_find_absent(es, local@);
        }
        None
    }
}

/// Hands the compiler a module's files under the path an import will name,
/// in place of any handed before under that path.
pub fn hand_source(sources: &mut HandedSources, path: &str, files: Vec<(String, String)>)
    requires
        old(sources).wf(),
    ensures
        final(sources).wf(),
        final(sources)@ == old(sources)@.insert(path@, files_view(files@)),
{
    let key = crate::text::string_of(path);
    let ghost es = entries_view(sources.entries@);
    let ghost fv = files_view(files@);
    let mut i: usize = 0;
    while i < sources.entries.len()
        invariant
            i <= sources.entries@.len(),
            es == entries_view(sources.entries@),
            sources.entries@ == old(sources).entries@,
            old(sources).wf(),
            fv == files_view(files@),
            key@ == path@,
            forall|a: int| 0 <= a < i ==> (#[trigger] es[a]).0 != path@,
        decreases sources.entries@.len() - i,
    {
        if crate::text::same_text(sources.entries[i].0.as_str(), path) {
            let ghost before = sources.entries@;
            sources.entries.set(i, (key, files));
            proof {
                let now = entries_view(sources.entries@);
                assert(sources.entries@ == before.update(i as int, (key, files)));
                assert(es[i as int].0 == path@);
                assert(now =~= es.update(i as int, (es[i as int].0, fv)));
                assert forall|k: Seq<char>| k != path@ implies find(now, k) == find(es, k) by {
                    lemma_find_update(es, i as int, fv, k);
                }
                lemma_find_update(es, i as int, fv, path@);
                assert(sources@ =~= old(sources)@.insert(path@, fv));
            }
            return;
        }
        i += 1;
    }
    sources.entries.push((key, files));
    proof {
        let now = entries_view(sources.entries@);
        assert(now =~= es.push((path@, fv)));
        assert forall|k: Seq<char>| k != path@ implies find(now, k) == find(es, k) by {
            lemma_find_push(es, path@, fv, k);
        }
        lemma_find_push(es, path@, fv, path@);
        assert(sources@ =~= old(sources)@.insert(path@, fv));
    }
}

/// Drops every module handed in.
pub fn forget_sources(sources: &mut HandedSources)
    ensures
        final(sources).wf(),
        final(sources)@ == Map::<Seq<char>, Seq<(Seq<char>, Seq<char>)>>::empty(),
{
    sources.entries.clear();
    assert(sources@ =~= Map::<Seq<char>, Seq<(Seq<char>, Seq<char>)>>::empty());
}

} // verus!
