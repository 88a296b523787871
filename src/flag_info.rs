use vstd::prelude::*;

verus! {

/// One flag definition of the catalog.
pub struct FlagInfo {
    pub name: String,
    pub old_name: Option<String>,
    pub abbreviation: Option<String>,
    pub commands: Vec<String>,
    pub requires_value: bool,
    pub has_negative_flag: bool,
    pub bazel_versions: Vec<String>,
    pub metadata_tags: Vec<String>,
    pub effect_tags: Vec<String>,
    pub documentation: Option<String>,
    pub documentation_category: Option<String>,
}

/// Whether the string sequence `v` holds an element whose text is `s`.
pub open spec fn holds_text(v: Seq<String>, s: Seq<char>) -> bool {
    exists|j: int| 0 <= j < v.len() && #[trigger] v[j]@ == s
}

/// The pseudo-commands that every flag is taken to support.
pub open spec fn is_umbrella_command(c: Seq<char>) -> bool {
    c == "common"@ || c == "always"@
}

/// Tests whether some element of `v` has the text of `s`.
pub fn contains_text(v: &Vec<String>, s: &String) -> (r: bool)
    ensures
        r == holds_text(v@, s@),
{
    let mut j: usize = 0;
    while j < v.len()
        invariant
            j <= v.len(),
            forall|k: int| 0 <= k < j ==> v@[k]@ != s@,
        decreases v.len() - j,
    {
        if v[j] == *s {
            return true;
        }
        j += 1;
    }
    false
}

impl FlagInfo {
    pub open spec fn spec_is_deprecated(&self) -> bool {
        holds_text(self.metadata_tags@, "DEPRECATED"@)
    }

    pub open spec fn spec_is_noop(&self) -> bool {
        holds_text(self.effect_tags@, "NO_OP"@)
    }

    pub open spec fn spec_supports_command(&self, command: Seq<char>) -> bool {
        is_umbrella_command(command) || holds_text(self.commands@, command)
    }

    /// Whether the flag carries the `DEPRECATED` metadata tag.
    pub fn is_deprecated(&self) -> (r: bool)
        ensures
            r == self.spec_is_deprecated(),
    {
        contains_text(&self.metadata_tags, &String::from_str("DEPRECATED"))
    }

    /// Whether the flag carries the `NO_OP` effect tag.
    pub fn is_noop(&self) -> (r: bool)
        ensures
            r == self.spec_is_noop(),
    {
        contains_text(&self.effect_tags, &String::from_str("NO_OP"))
    }

    /// Whether the flag may be given under `command`; the umbrella
    /// pseudo-commands `common` and `always` accept every flag.
    pub fn supports_command(&self, command: &str) -> (r: bool)
        ensures
            r == self.spec_supports_command(command@),
    {
        let c = String::from_str(command);
        if c == String::from_str("common") || c == String::from_str("always") {
            return true;
        }
        contains_text(&self.commands, &c)
    }
}

} // verus!
