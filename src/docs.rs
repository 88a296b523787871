use vstd::prelude::*;

use crate::flag_info::FlagInfo;

verus! {

/// Names what `str::to_lowercase` returns for a text.
pub uninterp spec fn lowercase_of(s: Seq<char>) -> Seq<char>;

/// Relies on `str::to_lowercase`: the lowercase mapping of a text, which
/// depends on the text alone.
#[verifier::external_body]
fn lowercase(s: &str) -> (r: String)
    ensures
        r@ == lowercase_of(s@),
{
    s.to_lowercase()
}

/// Characters that Markdown gives a meaning to.
pub open spec fn needs_escape(c: char) -> bool {
    c == '\\' || c == '`' || c == '*' || c == '_' || c == '#' || c == '+' || c == '-' || c == '.' || c == '!'
        || c == '~' || c == '{' || c == '}' || c == '[' || c == ']' || c == '(' || c == ')' || c == '<'
        || c == '>'
}

/// `s` with a backslash before each character that Markdown gives a meaning to.
pub open spec fn escaped(s: Seq<char>) -> Seq<char>
    decreases s.len(),
{
    if s.len() == 0 {
        Seq::empty()
    } else {
        escaped(s.drop_last()) + if needs_escape(s.last()) {
            "\\"@ + seq![s.last()]
        } else {
            seq![s.last()]
        }
    }
}

/// `s` with each occurrence of `pattern`, taken from the left without
/// overlap, replaced by `replacement`.
pub open spec fn replaced(s: Seq<char>, pattern: Seq<char>, replacement: Seq<char>) -> Seq<char>
    decreases s.len(),
{
    if s.len() == 0 || pattern.len() == 0 {
        s
    } else if s.len() >= pattern.len() && s.take(pattern.len() as int) == pattern {
        replacement + replaced(s.skip(pattern.len() as int), pattern, replacement)
    } else {
        seq![s[0]] + replaced(s.skip(1), pattern, replacement)
    }
}

/// The parts joined with `, ` between them.
pub open spec fn comma_joined(parts: Seq<Seq<char>>) -> Seq<char>
    decreases parts.len(),
{
    if parts.len() == 0 {
        Seq::empty()
    } else if parts.len() == 1 {
        parts[0]
    } else {
        comma_joined(parts.drop_last()) + ", "@ + parts.last()
    }
}

/// The texts of a sequence of strings.
pub open spec fn texts(v: Seq<String>) -> Seq<Seq<char>> {
    v.map_values(|s: String| s@)
}

/// The first line: the flag's long name, its abbreviation and its negated form.
pub open spec fn heading(f: FlagInfo) -> Seq<char> {
    let abbreviation = match f.abbreviation {
        Some(a) => " [`-"@ + a@ + "`]"@,
        None => Seq::empty(),
    };
    let negation = if f.has_negative_flag {
        ", `--no"@ + f.name@ + "`"@
    } else {
        Seq::empty()
    };
    "`--"@ + f.name@ + "`"@ + abbreviation + negation
}

/// The documentation paragraph, with the product named and Markdown escaped.
pub open spec fn documentation_body(f: FlagInfo) -> Seq<char> {
    match f.documentation {
        Some(d) => "\n\n"@ + escaped(replaced(d@, "%{product}"@, "Bazel"@)),
        None => Seq::empty(),
    }
}

/// A line listing `tags` after `label`, or nothing where there are none.
pub open spec fn tag_line(label: Seq<char>, tags: Seq<Seq<char>>) -> Seq<char> {
    if tags.len() > 0 {
        label + comma_joined(tags) + "\n"@
    } else {
        Seq::empty()
    }
}

/// The category line, or nothing where there is no category.
pub open spec fn category_line(category: Option<Seq<char>>) -> Seq<char> {
    match category {
        Some(c) => "Category: "@ + c + "\n"@,
        None => Seq::empty(),
    }
}

/// The Markdown description of a flag, given its effect tags, metadata tags
/// and category as they are to be shown.
pub open spec fn documentation_text(
    f: FlagInfo,
    effect_tags: Seq<Seq<char>>,
    metadata_tags: Seq<Seq<char>>,
    category: Option<Seq<char>>,
) -> Seq<char> {
    heading(f) + documentation_body(f) + "\n\n"@ + tag_line("Effect tags: "@, effect_tags) + tag_line(
        "Tags: "@,
        metadata_tags,
    ) + category_line(category)
}

fn is_markdown_special(c: char) -> (r: bool)
    ensures
        r == needs_escape(c),
{
    match c {
        '\\' | '`' | '*' | '_' | '#' | '+' | '-' | '.' | '!' | '~' | '{' | '}' | '[' | ']' | '(' | ')' | '<'
        | '>' => true,
        _ => false,
    }
}

/// Escapes the characters that Markdown gives a meaning to.
pub fn escape_markdown(s: &str) -> (r: String)
    ensures
        r@ == escaped(s@),
{
    let n = s.unicode_len();
    let mut res = String::new();
    let mut i: usize = 0;
    while i < n
        invariant
            n == s@.len(),
            i <= n,
            res@ == escaped(s@.take(i as int)),
        decreases n - i,
    {
        let c = s.get_char(i);
        if is_markdown_special(c) {
            res.append("\\");
        }
        let one = s.substring_char(i, i + 1);
        res.append(one);
        proof {
            assert(s@.take(i + 1).drop_last() =~= s@.take(i as int));
            assert(one@ =~= seq![c]);
        }
        i += 1;
    }
    proof {
        assert(s@.take(n as int) =~= s@);
    }
    res
}

/// Replaces each occurrence of a non-empty `pattern`, from the left and
/// without overlap, by `replacement`.
pub fn replace_text(s: &str, pattern: &str, replacement: &str) -> (r: String)
    requires
        pattern@.len() > 0,
    ensures
        r@ == replaced(s@, pattern@, replacement@),
{
    let n = s.unicode_len();
    let p = pattern.unicode_len();
    let wanted = String::from_str(pattern);
    let mut out = String::new();
    let mut i: usize = 0;
    proof {
        assert(s@.skip(0) =~= s@);
        assert(out@ + replaced(s@, pattern@, replacement@) =~= replaced(s@, pattern@, replacement@));
    }
    while i < n
        invariant
            n == s@.len(),
            p == pattern@.len(),
            p > 0,
            wanted@ == pattern@,
            i <= n,
            out@ + replaced(s@.skip(i as int), pattern@, replacement@) == replaced(s@, pattern@, replacement@),
        decreases n - i,
    {
        let ghost rest = s@.skip(i as int);
        if p <= n - i && String::from_str(s.substring_char(i, i + p)) == wanted {
            proof {
                assert(rest.take(p as int) =~= s@.subrange(i as int, i + p));
                assert(rest.skip(p as int) =~= s@.skip(i + p));
            }
            let ghost before = out@;
            out.append(replacement);
            proof {
                assert(out@ + replaced(s@.skip(i + p), pattern@, replacement@) =~= before + (replacement@
                    + replaced(s@.skip(i + p), pattern@, replacement@)));
            }
            i += p;
        } else {
            let one = s.substring_char(i, i + 1);
            proof {
                if p <= n - i {
                    assert(rest.take(p as int) =~= s@.subrange(i as int, i + p));
                }
                assert(rest.skip(1) =~= s@.skip(i + 1));
                assert(one@ =~= seq![rest[0]]);
            }
            let ghost before = out@;
            out.append(one);
            proof {
                assert(out@ + replaced(s@.skip(i + 1), pattern@, replacement@) =~= before + (seq![rest[0]]
                    + replaced(s@.skip(i + 1), pattern@, replacement@)));
            }
            i += 1;
        }
    }
    proof {
        assert(s@.skip(n as int) =~= Seq::<char>::empty());
    }
    out
}

/// The lowercase texts of a sequence of strings.
pub open spec fn lowered(v: Seq<String>) -> Seq<Seq<char>> {
    v.map_values(|s: String| lowercase_of(s@))
}

fn join_comma(parts: &Vec<String>) -> (r: String)
    ensures
        r@ == comma_joined(texts(parts@)),
{
    let mut out = String::new();
    let mut j: usize = 0;
    while j < parts.len()
        invariant
            j <= parts@.len(),
            out@ == comma_joined(texts(parts@.take(j as int))),
        decreases parts@.len() - j,
    {
        proof {
            assert(texts(parts@.take(j + 1)).drop_last() =~= texts(parts@.take(j as int)));
        }
        if j > 0 {
            out.append(", ");
        } else {
            proof {
                assert(out@ =~= Seq::<char>::empty());
            }
        }
        out.append(parts[j].as_str());
        j += 1;
    }
    proof {
        assert(parts@.take(parts@.len() as int) =~= parts@);
    }
    out
}

fn lower_all(v: &Vec<String>) -> (r: Vec<String>)
    ensures
        texts(r@) == lowered(v@),
{
    let mut out: Vec<String> = Vec::new();
    let mut j: usize = 0;
    while j < v.len()
        invariant
            j <= v@.len(),
            texts(out@) == lowered(v@.take(j as int)),
        decreases v@.len() - j,
    {
        out.push(lowercase(v[j].as_str()));
        proof {
            assert(lowered(v@.take(j + 1)) =~= lowered(v@.take(j as int)).push(lowercase_of(v@[j as int]@)));
            assert(texts(out@) =~= lowered(v@.take(j + 1)));
        }
        j += 1;
    }
    proof {
        assert(v@.take(v@.len() as int) =~= v@);
    }
    out
}

fn render_heading(f: &FlagInfo) -> (r: String)
    ensures
        r@ == heading(*f),
{
    let mut result = String::new();
    result.append("`--");
    result.append(f.name.as_str());
    result.append("`");
    match &f.abbreviation {
        Some(a) => {
            result.append(" [`-");
            result.append(a.as_str());
            result.append("`]");
        },
        None => {},
    }
    if f.has_negative_flag {
        result.append(", `--no");
        result.append(f.name.as_str());
        result.append("`");
    }
    proof {
        assert(result@ =~= heading(*f));
    }
    result
}

fn render_body(f: &FlagInfo) -> (r: String)
    ensures
        r@ == documentation_body(*f),
{
    match &f.documentation {
        Some(d) => {
            proof {
                reveal_strlit("%{product}");
            }
            let text = replace_text(d.as_str(), "%{product}", "Bazel");
            let text = escape_markdown(text.as_str());
            let mut result = String::new();
            result.append("\n\n");
            result.append(text.as_str());
            proof {
                assert(result@ =~= documentation_body(*f));
            }
            result
        },
        None => String::new(),
    }
}

fn render_tag_line(label: &str, tags: &Vec<String>) -> (r: String)
    ensures
        r@ == tag_line(label@, texts(tags@)),
{
    let mut result = String::new();
    if tags.len() > 0 {
        result.append(label);
        result.append(join_comma(tags).as_str());
        result.append("\n");
        proof {
            assert(result@ =~= tag_line(label@, texts(tags@)));
        }
    }
    result
}

/// Renders the Markdown description of `f`, with the effect tags, metadata
/// tags and category given as they are to be shown.
pub fn render_documentation(
    f: &FlagInfo,
    effect_tags: &Vec<String>,
    metadata_tags: &Vec<String>,
    category: &Option<String>,
) -> (r: String)
    ensures
        r@ == documentation_text(
            *f,
            texts(effect_tags@),
            texts(metadata_tags@),
            match category {
                Some(c) => Some(c@),
                None => None,
            },
        ),
{
    let mut result = render_heading(f);
    result.append(render_body(f).as_str());
    result.append("\n\n");
    result.append(render_tag_line("Effect tags: ", effect_tags).as_str());
    result.append(render_tag_line("Tags: ", metadata_tags).as_str());
    match category {
        Some(c) => {
            result.append("Category: ");
            result.append(c.as_str());
            result.append("\n");
        },
        None => {},
    }
    proof {
        assert(result@ =~= documentation_text(
            *f,
            texts(effect_tags@),
            texts(metadata_tags@),
            match category {
                Some(c) => Some(c@),
                None => None,
            },
        ));
    }
    result
}

impl FlagInfo {
    /// The Markdown description of the flag: its names, its documentation
    /// with the product named, and its tags and category in lowercase.
    pub fn get_documentation_markdown(&self) -> (r: String)
        ensures
            r@ == documentation_text(
                *self,
                lowered(self.effect_tags@),
                lowered(self.metadata_tags@),
                match self.documentation_category {
                    Some(c) => Some(lowercase_of(c@)),
                    None => None,
                },
            ),
    {
        let effect_tags = lower_all(&self.effect_tags);
        let metadata_tags = lower_all(&self.metadata_tags);
        let category = match &self.documentation_category {
            Some(c) => Some(lowercase(c.as_str())),
            None => None,
        };
        render_documentation(self, &effect_tags, &metadata_tags, &category)
    }
}

} // verus!
