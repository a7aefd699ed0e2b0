use vstd::prelude::*;

verus! {

/// What `str::to_lowercase` returns for a string.
pub uninterp spec fn lower_of(s: Seq<char>) -> Seq<char>;

/// Relies on `str::to_lowercase`: the lowercase mapping of each character, which depends
/// on the characters alone; the empty string stays empty.
#[verifier::external_body]
fn lowercase(s: &str) -> (r: String)
    ensures
        r@ == lower_of(s@),
        s@.len() == 0 ==> r@.len() == 0,
{
    s.to_lowercase()
}

/// What a case-folded flag value means: `true`, `false`, or anything else for `default`.
pub open spec fn flag_value(folded: Seq<char>, default: bool) -> bool {
    if folded == seq!['t', 'r', 'u', 'e'] {
        true
    } else if folded == seq!['f', 'a', 'l', 's', 'e'] {
        false
    } else {
        default
    }
}

/// Reads a case-folded flag value.
pub fn parse_flag_folded(folded: &str, default: bool) -> (r: bool)
    ensures
        r == flag_value(folded@, default),
{
    let f = folded.to_owned();
    let t = String::from_str("true");
    let n = String::from_str("false");
    proof {
        reveal_strlit("true");
        reveal_strlit("false");
        assert(t@ =~= seq!['t', 'r', 'u', 'e']);
        assert(n@ =~= seq!['f', 'a', 'l', 's', 'e']);
    }
    if f == t {
        true
    } else if f == n {
        false
    } else {
        default
    }
}

/// The boolean that an environment variable's value (`None` when unset) sets, matched
/// without regard to case; an unset or unrecognised value gives `default`.
pub fn check_environment_boolean(value: Option<&str>, default: bool) -> (r: bool)
    ensures
        value is None ==> r == default,
        value matches Some(v) ==> r == flag_value(lower_of(v@), default),
{
    match value {
        Some(v) => {
            let folded = lowercase(v);
            parse_flag_folded(folded.as_str(), default)
        },
        None => default,
    }
}

/// The runtime's switches: a compiler cache for builds outside the workspace, deep
/// checking of the build tool's dependency files, and batched workspace builds.
#[derive(Clone, Copy, Debug, PartialEq, Eq, Structural)]
pub struct RuntimeSettings {
    pub sccache: bool,
    pub deep_checking: bool,
    pub batched: bool,
}

impl RuntimeSettings {
    /// The settings from the values of `EEKS_SCCACHE`, `EEKS_DEEP_CHECKING` and
    /// `EEKS_BATCHED`; each is on unless set to something that folds to `false`.
    pub fn from_values(sccache: Option<&str>, deep_checking: Option<&str>, batched: Option<&str>) -> (r: Self)
        ensures
            r.sccache == (match sccache { Some(v) => flag_value(lower_of(v@), true), None => true }),
            r.deep_checking == (match deep_checking { Some(v) => flag_value(lower_of(v@), true), None => true }),
            r.batched == (match batched { Some(v) => flag_value(lower_of(v@), true), None => true }),
    {
        RuntimeSettings {
            sccache: check_environment_boolean(sccache, true),
            deep_checking: check_environment_boolean(deep_checking, true),
            batched: check_environment_boolean(batched, true),
        }
    }
}

} // verus!
