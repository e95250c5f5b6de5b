use vstd::prelude::*;
use crate::diag::Span;
use crate::text::{digits_of, push_str, push_u64, same_text, string_from_chars};

mod builtins;
mod scripted;
mod value;

pub use self::builtins::{arity_message, bare, bases, builtin_answers, call_builtin, lazy_hint, pos_or_zero};
pub use self::value::{
    accumulate_failures, all_merged, binop_answers, eval_binop, failing, failures, hop, hopped, law_equal_lists_match,
    law_equal_maps_share_keys, law_equality_complement, law_int_arithmetic, law_int_ordering, law_map_equality_sees_keys, one_key, index_value, indexes, is_failure, merged_err,
    merged_failures, merges, plain, reasons, render_demanded, rendered, values_eq, values_equal, ErrInfo, MapKey, Value,
};
pub use self::scripted::{debug_list, debug_list_body, debug_quoted, entry, scripted_file, ScriptedExecutor};

verus! {

/// The evaluation frame an expression runs in: the err-origin prefix
/// "{fn} at {file}" a raise stamps on its err, and the package that file
/// belongs to.
#[derive(Clone, Debug)]
pub struct Site {
    pub prefix: String,
    pub hako: String,
}

/// Where an err was raised: the trace line a report prints and the package
/// to hold responsible.
#[derive(Clone, Debug)]
pub struct Raised {
    pub at: Option<String>,
    pub hako: Option<String>,
}

impl Default for Raised {
    fn default() -> (r: Raised)
        ensures
            r.at is None,
            r.hako is None,
    {
        Raised { at: None, hako: None }
    }
}

/// Which of the three chain words a step is.
#[derive(Clone, Copy, Debug, PartialEq, Eq, Structural)]
pub enum Word {
    Bind,
    Rescue,
    Annotate,
}

/// `"{prefix}:{line}"`, the trace line of a raise at `span` in `site`.
pub open spec fn origin_line(site: Site, span: Span) -> Seq<char> {
    site.prefix@ + seq![':'] + digits_of(span.line as nat)
}

/// Where an err was raised: in a frame, the frame's prefix and the line, and
/// the frame's package; with no frame, nothing.
pub fn origin_at(frame: &Option<Site>, span: Span) -> (r: Raised)
    ensures
        match frame {
            Some(site) => {
                &&& r.at matches Some(at) && at@ == origin_line(*site, span)
                &&& r.hako matches Some(h) && h@ == site.hako@
            },
            None => r.at is None && r.hako is None,
        },
{
    match frame {
        Some(site) => {
            let mut out: Vec<char> = Vec::new();
            push_str(&mut out, site.prefix.as_str());
            out.push(':');
            push_u64(span.line as u64, &mut out);
            assert(out@ =~= origin_line(*site, span));
            Raised { at: Some(string_from_chars(out.as_slice())), hako: Some(site.hako.clone()) }
        },
        None => Raised::default(),
    }
}

/// The chain word a name spells, if it spells one.
pub open spec fn chain_word_of(name: Seq<char>) -> Option<Word> {
    if name == "bind"@ {
        Some(Word::Bind)
    } else if name == "rescue"@ {
        Some(Word::Rescue)
    } else if name == "annotate"@ {
        Some(Word::Annotate)
    } else {
        None
    }
}

/// The name of a chain word, or nothing. One table so the builtin, the
/// checker's ambient list and a reader all read the same three.
pub fn chain_word(name: &str) -> (r: Option<Word>)
    ensures
        r == chain_word_of(name@),
{
    if same_text(name, "bind") {
        Some(Word::Bind)
    } else if same_text(name, "rescue") {
        Some(Word::Rescue)
    } else if same_text(name, "annotate") {
        Some(Word::Annotate)
    } else {
        None
    }
}

/// The 1-based inclusive slice `from..=to` of a sequence of `len`, as a
/// 0-based half-open range, when it lies inside.
pub fn slice_range(len: usize, from: usize, to: usize) -> (r: Option<(usize, usize)>)
    ensures
        r == (if from >= 1 && from <= to && to <= len {
            Some(((from - 1) as usize, to))
        } else {
            None::<(usize, usize)>
        }),
{
    if from >= 1 && from <= to && to <= len {
        Some((from - 1, to))
    } else {
        None
    }
}

/// A table handle in the render path beside the pointers: a pointer is
/// aligned, so the low bit set tells a handle apart.
pub fn deferral_key(handle: u32) -> (r: usize)
    ensures
        r == ((handle as usize) << 1usize) | 1usize,
        handle < 0x8000_0000 ==> r == 2 * (handle as nat) + 1,
{
    assert(handle < 0x8000_0000 ==> ((handle as usize) << 1usize) | 1usize == 2 * (handle as usize) + 1)
        by (bit_vector);
    ((handle as usize) << 1) | 1
}

/// An error the interpreter reports at a source position.
pub struct RuntimeError {
    pub message: String,
    pub span: Span,
}

/// Engine-shared semantic counters: evaluation counts are semantics, so every
/// engine reports the same values.
pub struct ThunkStats {
    pub allocs: u64,
    pub forces: u64,
    pub evals: u64,
}

impl Default for ThunkStats {
    fn default() -> (r: ThunkStats)
        ensures
            r.allocs == 0 && r.forces == 0 && r.evals == 0,
    {
        ThunkStats { allocs: 0, forces: 0, evals: 0 }
    }
}

impl ThunkStats {
    /// `thunk_allocs=A`, `thunk_forces=F`, `thunk_evals=E`, a line each.
    pub fn render(&self) -> (r: String)
        ensures
            r@ == "thunk_allocs="@ + digits_of(self.allocs as nat) + "\nthunk_forces="@
                + digits_of(self.forces as nat) + "\nthunk_evals="@ + digits_of(self.evals as nat)
                + "\n"@,
    {
        let mut out: Vec<char> = Vec::new();
        push_str(&mut out, "thunk_allocs=");
        push_u64(self.allocs, &mut out);
        push_str(&mut out, "\nthunk_forces=");
        push_u64(self.forces, &mut out);
        push_str(&mut out, "\nthunk_evals=");
        push_u64(self.evals, &mut out);
        push_str(&mut out, "\n");
        assert(out@ =~= "thunk_allocs="@ + digits_of(self.allocs as nat) + "\nthunk_forces="@
            + digits_of(self.forces as nat) + "\nthunk_evals="@ + digits_of(self.evals as nat)
            + "\n"@);
        string_from_chars(out.as_slice())
    }
}

/// The SplitMix64 increment.
pub const GOLDEN_GAMMA: u64 = 0x9E37_79B9_7F4A_7C15;

/// The state after one draw.
pub open spec fn next_state(state: u64) -> u64 {
    state.wrapping_add(GOLDEN_GAMMA)
}

/// SplitMix64's output mix of a state.
pub open spec fn mix(z0: u64) -> u64 {
    let z1 = (z0 ^ (z0 >> 30u64)).wrapping_mul(0xBF58_476D_1CE4_E5B9u64);
    let z2 = (z1 ^ (z1 >> 27u64)).wrapping_mul(0x94D0_49BB_1331_11EBu64);
    z2 ^ (z2 >> 31u64)
}

/// SplitMix64: a deterministic, seedable generator.
pub struct Rng(pub u64);

impl Rng {
    pub fn from_seed(seed: u64) -> (r: Self)
        ensures r.0 == seed,
    {
        Rng(seed)
    }

    fn next_u64(&mut self) -> (r: u64)
        ensures
            final(self).0 == next_state(old(self).0),
            r == mix(next_state(old(self).0)),
    {
        self.0 = self.0.wrapping_add(GOLDEN_GAMMA);
        let mut z = self.0;
        z = (z ^ (z >> 30)).wrapping_mul(0xBF58_476D_1CE4_E5B9);
        z = (z ^ (z >> 27)).wrapping_mul(0x94D0_49BB_1331_11EB);
        z ^ (z >> 31)
    }

    /// A draw in `[0, n)`; zero when `n` is zero.
    pub fn below(&mut self, n: u64) -> (r: u64)
        ensures
            n == 0 ==> r == 0 && final(self).0 == old(self).0,
            n != 0 ==> r == mix(next_state(old(self).0)) % n
                && final(self).0 == next_state(old(self).0),
            n != 0 ==> r < n,
    {
        match n {
            0 => 0,
            n => self.next_u64() % n,
        }
    }
}

} // verus!
