//! An executor that performs nothing: it writes down what a program asked of
//! the world, answers from a script, and so lets a run be replayed and read.

use vstd::prelude::*;
use super::Rng;

verus! {

/// How Rust's `Debug` writes a string: quoted, with quotes, backslashes and
/// characters that do not print escaped.
pub uninterp spec fn debug_quoted(s: Seq<char>) -> Seq<char>;

/// `format!("{:?}")` of a string slice: its `Debug` rendering, a function of
/// its characters alone.
#[verifier::external_body]
fn quoted(s: &str) -> (r: String)
    ensures
        r@ == debug_quoted(s@),
{
    format!("{s:?}")
}

/// Whether `path` names a directory on this machine. What comes back rests on
/// the disk, so nothing is promised of it.
#[verifier::external_body]
fn path_is_dir(path: &str) -> bool {
    std::path::Path::new(path).is_dir()
}

/// How `Debug` writes a list of strings: each quoted, between brackets,
/// separated by a comma and a space.
pub open spec fn debug_list(items: Seq<String>) -> Seq<char>
    decreases items.len(),
{
    if items.len() == 0 {
        "[]"@
    } else {
        debug_list_body(items) + "]"@
    }
}

/// `[` and the quoted items separated by `, `, without the closing bracket.
pub open spec fn debug_list_body(items: Seq<String>) -> Seq<char>
    decreases items.len(),
{
    if items.len() == 0 {
        "["@
    } else if items.len() == 1 {
        "["@ + debug_quoted(items[0]@)
    } else {
        debug_list_body(items.drop_last()) + ", "@ + debug_quoted(items.last()@)
    }
}

/// The record `word`, a space, and the quoted `text`.
pub open spec fn entry(word: Seq<char>, text: Seq<char>) -> Seq<char> {
    word + " "@ + debug_quoted(text)
}

/// The last file the script holds at `path`.
pub open spec fn scripted_file(files: Seq<(String, String)>, path: Seq<char>) -> Option<Seq<char>>
    decreases files.len(),
{
    if files.len() == 0 {
        None
    } else if files.last().0@ == path {
        Some(files.last().1@)
    } else {
        scripted_file(files.drop_last(), path)
    }
}

/// The scripted world: the arguments and input a run is given, the files it
/// can read (a later entry for a path decides), the generator its dice come
/// from, and the transcript of every request it made.
pub struct ScriptedExecutor {
    pub transcript: Vec<String>,
    pub script_args: Vec<String>,
    pub script_stdin: String,
    pub files: Vec<(String, String)>,
    pub rng: Rng,
}

impl ScriptedExecutor {
    /// An empty script whose dice come from `rng`.
    pub fn with_rng(rng: Rng) -> (r: Self)
        ensures
            r.transcript@.len() == 0 && r.script_args@.len() == 0 && r.script_stdin@.len() == 0,
            r.files@.len() == 0 && r.rng == rng,
    {
        ScriptedExecutor {
            transcript: Vec::new(),
            script_args: Vec::new(),
            script_stdin: String::new(),
            files: Vec::new(),
            rng,
        }
    }

    fn record(&mut self, word: &str, text: &str)
        ensures
            final(self).transcript@.len() == old(self).transcript@.len() + 1,
            final(self).transcript@.drop_last() == old(self).transcript@,
            final(self).transcript@.last()@ == entry(word@, text@),
            final(self).script_args == old(self).script_args && final(self).script_stdin == old(self).script_stdin,
            final(self).files == old(self).files && final(self).rng == old(self).rng,
    {
        let mut cs: Vec<char> = Vec::new();
        crate::text::push_str(&mut cs, word);
        cs.push(' ');
        let q = quoted(text);
        crate::text::push_str(&mut cs, q.as_str());
        proof {
            reveal_strlit(" ");
        }
        assert(cs@ =~= entry(word@, text@));
        self.transcript.push(crate::text::string_from_chars(cs.as_slice()));
        assert(self.transcript@.drop_last() =~= old(self).transcript@);
    }

    /// Records `print "text"`.
    pub fn print(&mut self, text: &str)
        ensures
            final(self).transcript@.drop_last() == old(self).transcript@,
            final(self).transcript@.len() == old(self).transcript@.len() + 1,
            final(self).transcript@.last()@ == entry("print"@, text@),
            final(self).rng == old(self).rng && final(self).files == old(self).files,
    {
        self.record("print", text);
    }

    /// Records `write "text"`.
    pub fn write(&mut self, text: &str)
        ensures
            final(self).transcript@.drop_last() == old(self).transcript@,
            final(self).transcript@.len() == old(self).transcript@.len() + 1,
            final(self).transcript@.last()@ == entry("write"@, text@),
            final(self).rng == old(self).rng && final(self).files == old(self).files,
    {
        self.record("write", text);
    }

    /// Records `write_err "text"`.
    pub fn write_err(&mut self, text: &str)
        ensures
            final(self).transcript@.drop_last() == old(self).transcript@,
            final(self).transcript@.len() == old(self).transcript@.len() + 1,
            final(self).transcript@.last()@ == entry("write_err"@, text@),
            final(self).rng == old(self).rng && final(self).files == old(self).files,
    {
        self.record("write_err", text);
    }

    /// Records `env "name"`; the script sets no variable.
    pub fn env(&mut self, name: &str) -> (r: Option<String>)
        ensures
            r is None,
            final(self).transcript@.drop_last() == old(self).transcript@,
            final(self).transcript@.len() == old(self).transcript@.len() + 1,
            final(self).transcript@.last()@ == entry("env"@, name@),
    {
        self.record("env", name);
        None
    }

    /// Records `is_dir "path"`, and answers what the disk says.
    pub fn is_dir(&mut self, path: &str) -> (r: bool)
        ensures
            final(self).transcript@.drop_last() == old(self).transcript@,
            final(self).transcript@.len() == old(self).transcript@.len() + 1,
            final(self).transcript@.last()@ == entry("is_dir"@, path@),
    {
        self.record("is_dir", path);
        path_is_dir(path)
    }

    /// Records `exists "path"`; nothing exists in the script.
    pub fn path_exists(&mut self, path: &str) -> (r: bool)
        ensures
            !r,
            final(self).transcript@.drop_last() == old(self).transcript@,
            final(self).transcript@.len() == old(self).transcript@.len() + 1,
            final(self).transcript@.last()@ == entry("exists"@, path@),
    {
        self.record("exists", path);
        false
    }

    /// Records `now`; the scripted clock stands at zero.
    pub fn now(&mut self) -> (r: i64)
        ensures
            r == 0,
            final(self).transcript@.drop_last() == old(self).transcript@,
            final(self).transcript@.len() == old(self).transcript@.len() + 1,
            final(self).transcript@.last()@ == "now"@,
    {
        self.transcript.push(crate::text::string_of("now"));
        proof {
            reveal_strlit("now");
        }
        assert(self.transcript@.drop_last() =~= old(self).transcript@);
        0
    }

    /// Records `list_dir "path"`; every scripted directory is empty.
    pub fn list_dir(&mut self, path: &str) -> (r: Result<Vec<String>, String>)
        ensures
            r matches Ok(v) && v@.len() == 0,
            final(self).transcript@.drop_last() == old(self).transcript@,
            final(self).transcript@.len() == old(self).transcript@.len() + 1,
            final(self).transcript@.last()@ == entry("list_dir"@, path@),
    {
        self.record("list_dir", path);
        Ok(Vec::new())
    }

    /// A draw in `[0, n)` from the script's generator.
    pub fn random(&mut self, n: u64) -> (r: u64)
        ensures
            n == 0 ==> r == 0 && final(self).rng.0 == old(self).rng.0,
            n != 0 ==> r == super::mix(super::next_state(old(self).rng.0)) % n
                && final(self).rng.0 == super::next_state(old(self).rng.0),
            final(self).transcript == old(self).transcript,
    {
        self.rng.below(n)
    }

    /// The scripted arguments.
    pub fn args(&mut self) -> (r: Vec<String>)
        ensures
            r@.len() == old(self).script_args@.len(),
            forall|i: int| 0 <= i < r@.len() ==> r@[i] == old(self).script_args@[i],
            *final(self) == *old(self),
    {
        let mut out: Vec<String> = Vec::new();
        let mut i: usize = 0;
        while i < self.script_args.len()
            invariant
                i <= self.script_args@.len(),
                out@.len() == i,
                forall|j: int| 0 <= j < i ==> out@[j] == self.script_args@[j],
            decreases self.script_args@.len() - i,
        {
            out.push(self.script_args[i].clone());
            i += 1;
        }
        out
    }

    /// The scripted input.
    pub fn stdin(&mut self) -> (r: Result<String, String>)
        ensures
            r matches Ok(s) && s == old(self).script_stdin,
            *final(self) == *old(self),
    {
        Ok(self.script_stdin.clone())
    }

    /// Records `read_file "path"`, and answers the scripted file there.
    pub fn read_file(&mut self, path: &str) -> (r: Result<Option<String>, String>)
        ensures
            r matches Ok(found) && match scripted_file(old(self).files@, path@) {
                Some(text) => found matches Some(t) && t@ == text,
                None => found is None,
            },
            final(self).transcript@.drop_last() == old(self).transcript@,
            final(self).transcript@.len() == old(self).transcript@.len() + 1,
            final(self).transcript@.last()@ == entry("read_file"@, path@),
    {
        self.record("read_file", path);
        let files = &self.files;
        let mut k = files.len();
        assert(files@.subrange(0, k as int) =~= files@);
        while k > 0
            invariant
                k <= files@.len(),
                files@ == old(self).files@,
                self.transcript@.len() == old(self).transcript@.len() + 1,
                self.transcript@.drop_last() == old(self).transcript@,
                self.transcript@.last()@ == entry("read_file"@, path@),
                scripted_file(files@, path@) == scripted_file(files@.subrange(0, k as int), path@),
            decreases k,
        {
            let ghost pre = files@.subrange(0, k as int);
            assert(pre.drop_last() =~= files@.subrange(0, k - 1));
            if crate::text::same_text(files[k - 1].0.as_str(), path) {
                return Ok(Some(files[k - 1].1.clone()));
            }
            k -= 1;
        }
        Ok(None)
    }

    /// Records `run "cmd" ["arg", ...]`; every scripted process succeeds
    /// silently.
    pub fn run(&mut self, cmd: &str, args: &[String]) -> (r: Result<(i64, String, String), String>)
        ensures
            r matches Ok((status, out, errs)) && status == 0 && out@.len() == 0 && errs@.len() == 0,
            final(self).transcript@.drop_last() == old(self).transcript@,
            final(self).transcript@.len() == old(self).transcript@.len() + 1,
            final(self).transcript@.last()@ == "run "@ + debug_quoted(cmd@) + " "@ + debug_list(args@),
    {
        proof {
            reveal_strlit("run ");
            reveal_strlit(" ");
            reveal_strlit(", ");
            reveal_strlit("[");
            reveal_strlit("]");
            reveal_strlit("[]");
        }
        let mut cs: Vec<char> = Vec::new();
        crate::text::push_str(&mut cs, "run ");
        crate::text::push_str(&mut cs, quoted(cmd).as_str());
        cs.push(' ');
        let ghost head = cs@;
        cs.push('[');
        let mut i: usize = 0;
        assert(cs@ =~= head + debug_list_body(args@.subrange(0, 0)));
        while i < args.len()
            invariant
                i <= args@.len(),
                cs@ == head + debug_list_body(args@.subrange(0, i as int)),
            decreases args@.len() - i,
        {
            if i > 0 {
                crate::text::push_str(&mut cs, ", ");
            }
            crate::text::push_str(&mut cs, quoted(args[i].as_str()).as_str());
            proof {
                let sub = args@.subrange(0, i + 1);
                assert(sub.drop_last() =~= args@.subrange(0, i as int));
                assert(sub.last() == args@[i as int]);
                if i == 0 {
                    assert(sub[0] == args@[0]);
                }
            }
            i += 1;
            assert(cs@ =~= head + debug_list_body(args@.subrange(0, i as int)));
        }
        cs.push(']');
        assert(args@.subrange(0, i as int) =~= args@);
        assert(cs@ =~= "run "@ + debug_quoted(cmd@) + " "@ + debug_list(args@));
        self.transcript.push(crate::text::string_from_chars(cs.as_slice()));
        assert(self.transcript@.drop_last() =~= old(self).transcript@);
        Ok((0, String::new(), String::new()))
    }

    /// Records `make_dir "path"`.
    pub fn make_dir(&mut self, path: &str) -> (r: Result<(), String>)
        ensures
            r is Ok,
            final(self).transcript@.drop_last() == old(self).transcript@,
            final(self).transcript@.len() == old(self).transcript@.len() + 1,
            final(self).transcript@.last()@ == entry("make_dir"@, path@),
    {
        self.record("make_dir", path);
        Ok(())
    }

    /// Records `write_file "path" "content"`.
    pub fn write_file(&mut self, path: &str, content: &str) -> (r: Result<(), String>)
        ensures
            r is Ok,
            final(self).transcript@.drop_last() == old(self).transcript@,
            final(self).transcript@.len() == old(self).transcript@.len() + 1,
            final(self).transcript@.last()@ == entry("write_file"@, path@) + " "@ + debug_quoted(content@),
    {
        proof {
            reveal_strlit("write_file ");
            reveal_strlit("write_file");
            reveal_strlit(" ");
        }
        let mut cs: Vec<char> = Vec::new();
        crate::text::push_str(&mut cs, "write_file ");
        crate::text::push_str(&mut cs, quoted(path).as_str());
        cs.push(' ');
        crate::text::push_str(&mut cs, quoted(content).as_str());
        assert(cs@ =~= entry("write_file"@, path@) + " "@ + debug_quoted(content@));
        self.transcript.push(crate::text::string_from_chars(cs.as_slice()));
        assert(self.transcript@.drop_last() =~= old(self).transcript@);
        Ok(())
    }
}

} // verus!
