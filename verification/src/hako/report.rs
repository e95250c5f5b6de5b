//! What `install` and `update` write into the lock and say back, once the
//! remote has answered: the decisions, apart from the git and disk work.

use vstd::prelude::*;
use crate::text::{digits_of, push_str, push_u64, same_text, string_from_chars, string_of};
use super::Pins;

verus! {

/// One lock line: `name tag sha`.
pub open spec fn lock_line(name: Seq<char>, tag: Seq<char>, sha: Seq<char>) -> Seq<char> {
    name + seq![' '] + tag + seq![' '] + sha + seq!['\n']
}

/// The lock an install writes: a line per hako, in order.
pub open spec fn install_lock(names: Seq<String>, pins: Seq<(String, String)>) -> Seq<char>
    decreases names.len(),
{
    if names.len() == 0 || pins.len() == 0 {
        Seq::empty()
    } else {
        install_lock(names.drop_last(), pins.drop_last()) + lock_line(names.last()@, pins.last().0@, pins.last().1@)
    }
}

/// What an install reports per hako: `  name tag`.
pub open spec fn install_lines(names: Seq<String>, pins: Seq<(String, String)>) -> Seq<char>
    decreases names.len(),
{
    if names.len() == 0 || pins.len() == 0 {
        Seq::empty()
    } else {
        install_lines(names.drop_last(), pins.drop_last()) + "  "@ + names.last()@ + seq![' '] + pins.last().0@
            + seq!['\n']
    }
}

pub open spec fn nothing_to_install() -> Seq<char> {
    "no hakos are imported \u{2014} nothing to install\n"@
}

/// What `install` writes and says, given each imported hako's resolved tag
/// and sha (`pins[i]` for `names[i]`): no lock at all when nothing is
/// imported.
pub fn install_outcome(names: &Vec<String>, pins: &Vec<(String, String)>) -> (r: (Option<String>, String))
    requires
        names@.len() == pins@.len(),
    ensures
        names@.len() == 0 ==> r.0 is None && r.1@ == nothing_to_install(),
        names@.len() > 0 ==> (r.0 matches Some(lock) && lock@ == install_lock(names@, pins@) && r.1@ == "installed "@
            + digits_of(names@.len() as nat) + " hako(s):\n"@ + install_lines(names@, pins@)),
{
    if names.len() == 0 {
        return (None, string_of("no hakos are imported \u{2014} nothing to install\n"));
    }
    let mut lock: Vec<char> = Vec::new();
    let mut report: Vec<char> = Vec::new();
    let mut i: usize = 0;
    assert(names@.subrange(0, 0) =~= Seq::<String>::empty());
    while i < names.len()
        invariant
            i <= names@.len() == pins@.len(),
            lock@ == install_lock(names@.subrange(0, i as int), pins@.subrange(0, i as int)),
            report@ == install_lines(names@.subrange(0, i as int), pins@.subrange(0, i as int)),
        decreases names@.len() - i,
    {
        let name = names[i].as_str();
        let (tag, sha) = &pins[i];
        let ghost lock0 = lock@;
        let ghost report0 = report@;
        push_str(&mut lock, name);
        lock.push(' ');
        push_str(&mut lock, tag.as_str());
        lock.push(' ');
        push_str(&mut lock, sha.as_str());
        lock.push('\n');
        push_str(&mut report, "  ");
        push_str(&mut report, name);
        report.push(' ');
        push_str(&mut report, tag.as_str());
        report.push('\n');
        assert(names@.subrange(0, i + 1).drop_last() =~= names@.subrange(0, i as int));
        assert(pins@.subrange(0, i + 1).drop_last() =~= pins@.subrange(0, i as int));
        assert(lock@ =~= lock0 + lock_line(name@, tag@, sha@));
        assert(report@ =~= report0 + "  "@ + name@ + seq![' '] + tag@ + seq!['\n']);
        i += 1;
    }
    assert(names@.subrange(0, i as int) =~= names@);
    assert(pins@.subrange(0, i as int) =~= pins@);
    let mut said: Vec<char> = Vec::new();
    push_str(&mut said, "installed ");
    push_u64(names.len() as u64, &mut said);
    push_str(&mut said, " hako(s):\n");
    let ghost head = said@;
    let mut k: usize = 0;
    while k < report.len()
        invariant
            k <= report@.len(),
            said@ == head + report@.subrange(0, k as int),
        decreases report@.len() - k,
    {
        said.push(report[k]);
        k += 1;
        assert(said@ =~= head + report@.subrange(0, k as int));
    }
    assert(report@.subrange(0, k as int) =~= report@);
    assert(said@ =~= "installed "@ + digits_of(names@.len() as nat) + " hako(s):\n"@ + report@);
    (Some(string_from_chars(lock.as_slice())), string_from_chars(said.as_slice()))
}

pub open spec fn names_pin(locked: Seq<(String, (String, String))>, name: Seq<char>) -> bool {
    exists|i: int| 0 <= i < locked.len() && (#[trigger] locked[i]).0@ == name
}

/// A plan walking each pin that `only` selects: every one, or the one named.
pub open spec fn walks(r: Result<Vec<bool>, String>, locked: Seq<(String, (String, String))>, only: Option<&str>) -> bool {
    r matches Ok(walk) && walk@.len() == locked.len() && forall|i: int|
        0 <= i < walk@.len() ==> #[trigger] walk@[i] == match only {
            Some(o) => locked[i].0@ == o@,
            None => true,
        }
}

/// Which pins `update` walks forward: all of them, or the one named, and
/// refused when the lock pins nothing or not the one named.
pub fn update_plan(locked: &Pins, only: Option<&str>) -> (r: Result<Vec<bool>, String>)
    ensures
        locked@.len() == 0 ==> (r matches Err(m) && m@ == "hako.lock pins nothing \u{2014} run `kanso install` first"@),
        locked@.len() > 0 ==> match only {
            Some(o) => if names_pin(locked@, o@) {
                walks(r, locked@, only)
            } else {
                r matches Err(m) && m@ == "`"@ + o@ + "` is not in hako.lock"@
            },
            None => walks(r, locked@, only),
        },
{
    if locked.len() == 0 {
        return Err(string_of("hako.lock pins nothing \u{2014} run `kanso install` first"));
    }
    let mut walk: Vec<bool> = Vec::new();
    let mut found = false;
    let mut i: usize = 0;
    while i < locked.len()
        invariant
            i <= locked@.len(),
            walk@.len() == i,
            forall|j: int| 0 <= j < i ==> #[trigger] walk@[j] == match only {
                Some(o) => locked@[j].0@ == o@,
                None => true,
            },
            found == (only matches Some(o) && exists|j: int| 0 <= j < i && (#[trigger] locked@[j]).0@ == o@),
        decreases locked@.len() - i,
    {
        let w = match only {
            Some(o) => same_text(locked[i].0.as_str(), o),
            None => true,
        };
        if w && only.is_some() {
            found = true;
        }
        walk.push(w);
        i += 1;
    }
    match only {
        Some(o) => {
            if !found {
                let mut m: Vec<char> = Vec::new();
                push_str(&mut m, "`");
                push_str(&mut m, o);
                push_str(&mut m, "` is not in hako.lock");
                assert(m@ =~= "`"@ + o@ + "` is not in hako.lock"@);
                return Err(string_from_chars(m.as_slice()));
            }
        },
        None => {},
    }
    Ok(walk)
}

/// The pin an entry ends at: the remote's answer where it was walked.
pub open spec fn chosen(entry: (String, (String, String)), walked: Option<(String, String)>) -> (Seq<char>, Seq<char>) {
    match walked {
        Some((latest, at)) => (latest@, at@),
        None => (entry.1.0@, entry.1.1@),
    }
}

/// The lock `update` writes.
pub open spec fn update_lock(locked: Seq<(String, (String, String))>, walked: Seq<Option<(String, String)>>) -> Seq<char>
    decreases locked.len(),
{
    if locked.len() == 0 || walked.len() == 0 {
        Seq::empty()
    } else {
        let c = chosen(locked.last(), walked.last());
        update_lock(locked.drop_last(), walked.drop_last()) + lock_line(locked.last().0@, c.0, c.1)
    }
}

/// The moves `update` reports: `  name tag -> latest` for each walked pin
/// whose release moved.
pub open spec fn update_moves(locked: Seq<(String, (String, String))>, walked: Seq<Option<(String, String)>>) -> Seq<char>
    decreases locked.len(),
{
    if locked.len() == 0 || walked.len() == 0 {
        Seq::empty()
    } else {
        let e = locked.last();
        update_moves(locked.drop_last(), walked.drop_last()) + match walked.last() {
            Some((latest, _)) => if latest@ != e.1.0@ {
                "  "@ + e.0@ + seq![' '] + e.1.0@ + " -> "@ + latest@ + seq!['\n']
            } else {
                Seq::<char>::empty()
            },
            None => Seq::<char>::empty(),
        }
    }
}

/// Whether a pin walked to `latest` moved, and so has a tree to fetch.
pub fn moved(tag: &str, latest: &str) -> (r: bool)
    ensures
        r == (latest@ != tag@),
{
    !same_text(latest, tag)
}

/// What `update` writes and says, given the remote's answer for each
/// walked pin (`walked[i]` for `locked[i]`, none where it was not walked).
pub fn update_outcome(locked: &Pins, walked: &Vec<Option<(String, String)>>) -> (r: (String, String))
    requires
        locked@.len() == walked@.len(),
    ensures
        r.0@ == update_lock(locked@, walked@),
        r.1@ == if update_moves(locked@, walked@).len() == 0 {
            "every hako is already at its highest release\n"@
        } else {
            "updated:\n"@ + update_moves(locked@, walked@)
        },
{
    let mut lock: Vec<char> = Vec::new();
    let mut moves: Vec<char> = Vec::new();
    let mut i: usize = 0;
    assert(locked@.subrange(0, 0) =~= Seq::<(String, (String, String))>::empty());
    while i < locked.len()
        invariant
            i <= locked@.len() == walked@.len(),
            lock@ == update_lock(locked@.subrange(0, i as int), walked@.subrange(0, i as int)),
            moves@ == update_moves(locked@.subrange(0, i as int), walked@.subrange(0, i as int)),
        decreases locked@.len() - i,
    {
        let (name, (tag, sha)) = &locked[i];
        let ghost lock0 = lock@;
        let ghost moves0 = moves@;
        push_str(&mut lock, name.as_str());
        lock.push(' ');
        match &walked[i] {
            Some((latest, at)) => {
                push_str(&mut lock, latest.as_str());
                lock.push(' ');
                push_str(&mut lock, at.as_str());
                if moved(tag.as_str(), latest.as_str()) {
                    push_str(&mut moves, "  ");
                    push_str(&mut moves, name.as_str());
                    moves.push(' ');
                    push_str(&mut moves, tag.as_str());
                    push_str(&mut moves, " -> ");
                    push_str(&mut moves, latest.as_str());
                    moves.push('\n');
                    assert(moves@ =~= moves0 + ("  "@ + name@ + seq![' '] + tag@ + " -> "@ + latest@ + seq!['\n']));
                } else {
                    assert(moves@ =~= moves0 + Seq::<char>::empty());
                }
            },
            None => {
                push_str(&mut lock, tag.as_str());
                lock.push(' ');
                push_str(&mut lock, sha.as_str());
                assert(moves@ =~= moves0 + Seq::<char>::empty());
            },
        }
        lock.push('\n');
        let ghost c = chosen(locked@[i as int], walked@[i as int]);
        assert(lock@ =~= lock0 + lock_line(name@, c.0, c.1));
        assert(locked@.subrange(0, i + 1).drop_last() =~= locked@.subrange(0, i as int));
        assert(walked@.subrange(0, i + 1).drop_last() =~= walked@.subrange(0, i as int));
        i += 1;
    }
    assert(locked@.subrange(0, i as int) =~= locked@);
    assert(walked@.subrange(0, i as int) =~= walked@);
    let said = if moves.len() == 0 {
        string_of("every hako is already at its highest release\n")
    } else {
        let mut m: Vec<char> = Vec::new();
        push_str(&mut m, "updated:\n");
        let ghost head = m@;
        let mut k: usize = 0;
        while k < moves.len()
            invariant
                k <= moves@.len(),
                m@ == head + moves@.subrange(0, k as int),
            decreases moves@.len() - k,
        {
            m.push(moves[k]);
            k += 1;
            assert(m@ =~= head + moves@.subrange(0, k as int));
        }
        assert(moves@.subrange(0, k as int) =~= moves@);
        string_from_chars(m.as_slice())
    };
    (string_from_chars(lock.as_slice()), said)
}

} // verus!

verus! {

/// Where a hako is fetched from: the transport's base, and the name's
/// `owner/repo` — the shape of the name is the declaration.
pub open spec fn remote_of(base: Seq<char>, name: Seq<char>) -> Seq<char> {
    let parts = crate::text::split_on(name, '/');
    let n: int = if parts.len() < 2 { parts.len() as int } else { 2 };
    base + crate::text::join_with(parts.subrange(0, n), seq!['/'])
}

/// The URL of a hako's repository under `base`.
pub fn remote(base: &str, name: &str) -> (r: String)
    ensures
        r@ == remote_of(base@, name@),
{
    let chars = crate::text::chars_of(name);
    let parts = crate::text::split_chars(chars.as_slice(), 0, chars.len(), '/');
    proof {
        assert(chars@.subrange(0, chars@.len() as int) =~= chars@);
    }
    let n: usize = if parts.len() < 2 { parts.len() } else { 2 };
    let repo = crate::text::join_parts(&parts, 0, n, '/');
    let ghost sp = crate::text::split_on(name@, '/');
    assert(parts@.subrange(0, n as int).map_values(|p: Vec<char>| p@) =~= sp.subrange(0, n as int));
    let mut out: Vec<char> = Vec::new();
    push_str(&mut out, base);
    let mut k: usize = 0;
    while k < repo.len()
        invariant
            k <= repo@.len(),
            out@ == base@ + repo@.subrange(0, k as int),
        decreases repo@.len() - k,
    {
        out.push(repo[k]);
        k += 1;
        assert(out@ =~= base@ + repo@.subrange(0, k as int));
    }
    assert(repo@.subrange(0, k as int) =~= repo@);
    string_from_chars(out.as_slice())
}

} // verus!
