use vstd::prelude::*;

use crate::flag_info::{contains_text, holds_text, FlagInfo};
use crate::slot_map::{CommandMap, SlotMap};

verus! {

/// How a token named the flag it resolved to.
#[derive(Clone, Copy, Debug, PartialEq, Eq, Structural)]
pub enum FlagLookupType {
    Normal,
    Abbreviation,
    OldName,
}

/// The text of an optional string.
pub open spec fn text_of(o: Option<&str>) -> Option<Seq<char>> {
    match o {
        Some(s) => Some(s@),
        None => None,
    }
}

/// Whether a flag is indexed under the version filter `filter`.
pub open spec fn admitted(f: FlagInfo, filter: Option<Seq<char>>) -> bool {
    match filter {
        Some(v) => holds_text(f.bazel_versions@, v),
        None => true,
    }
}

/// The name map built from `flags`: canonical and old names of each indexed
/// flag, in catalog order, a later entry replacing an earlier one.
pub open spec fn name_index(flags: Seq<FlagInfo>, filter: Option<Seq<char>>) -> Map<Seq<char>, usize>
    decreases flags.len(),
{
    if flags.len() == 0 {
        Map::empty()
    } else {
        let m = name_index(flags.drop_last(), filter);
        let f = flags.last();
        let slot = (flags.len() - 1) as usize;
        if admitted(f, filter) {
            let m1 = m.insert(f.name@, slot);
            match f.old_name {
                Some(o) => m1.insert(o@, slot),
                None => m1,
            }
        } else {
            m
        }
    }
}

/// The abbreviation map built from `flags`, a later entry replacing an
/// earlier one.
pub open spec fn abbreviation_index(flags: Seq<FlagInfo>, filter: Option<Seq<char>>) -> Map<Seq<char>, usize>
    decreases flags.len(),
{
    if flags.len() == 0 {
        Map::empty()
    } else {
        let m = abbreviation_index(flags.drop_last(), filter);
        let f = flags.last();
        let slot = (flags.len() - 1) as usize;
        if admitted(f, filter) {
            match f.abbreviation {
                Some(a) => m.insert(a@, slot),
                None => m,
            }
        } else {
            m
        }
    }
}

/// `m` with `slot` appended to the list of each command of `cmds`.
pub open spec fn add_commands(m: Map<Seq<char>, Seq<usize>>, cmds: Seq<String>, slot: usize) -> Map<Seq<char>, Seq<usize>>
    decreases cmds.len(),
{
    if cmds.len() == 0 {
        m
    } else {
        let m1 = add_commands(m, cmds.drop_last(), slot);
        let c = cmds.last()@;
        m1.insert(c, (if m1.contains_key(c) { m1[c] } else { Seq::empty() }).push(slot))
    }
}

/// The slot lists of the real commands, built from `flags` in catalog order.
pub open spec fn command_index(flags: Seq<FlagInfo>, filter: Option<Seq<char>>) -> Map<Seq<char>, Seq<usize>>
    decreases flags.len(),
{
    if flags.len() == 0 {
        Map::empty()
    } else {
        let m = command_index(flags.drop_last(), filter);
        let f = flags.last();
        if admitted(f, filter) {
            add_commands(m, f.commands@, (flags.len() - 1) as usize)
        } else {
            m
        }
    }
}

/// Whether `slot` stands in some list of `m`.
pub open spec fn listed(m: Map<Seq<char>, Seq<usize>>, slot: usize) -> bool {
    exists|c: Seq<char>| m.contains_key(c) && #[trigger] m[c].contains(slot)
}

/// `u` is the sorted, duplicate-free union of the lists of `m`.
pub open spec fn is_sorted_union(u: Seq<usize>, m: Map<Seq<char>, Seq<usize>>) -> bool {
    &&& forall|i: int, j: int| 0 <= i < j < u.len() ==> u[i] < u[j]
    &&& forall|s: usize| #[trigger] u.contains(s) <==> listed(m, s)
}

/// The names under which commands are recognised, given the slot lists.
pub open spec fn recognised_command(m: Map<Seq<char>, Seq<usize>>, c: Seq<char>) -> bool {
    m.contains_key(c) || c == "import"@ || c == "try-import"@
}

/// `s` without one trailing `=`.
pub open spec fn strip_assign(s: Seq<char>) -> Seq<char> {
    if s.len() > 0 && s.last() == '=' {
        s.drop_last()
    } else {
        s
    }
}

/// `s` without a leading `no`.
pub open spec fn strip_negation(s: Seq<char>) -> Seq<char> {
    if s.len() >= 2 && s[0] == 'n' && s[1] == 'o' {
        s.skip(2)
    } else {
        s
    }
}

/// What a token names, given the lookup maps and the catalog: the name form
/// and the slot of the flag, or `None`.
pub open spec fn resolve_token(
    names: Map<Seq<char>, usize>,
    abbreviations: Map<Seq<char>, usize>,
    flags: Seq<FlagInfo>,
    token: Seq<char>,
) -> Option<(FlagLookupType, usize)> {
    let t = strip_assign(token);
    if t.len() >= 2 && t[0] == '-' && t[1] == '-' {
        let long = t.skip(2);
        let candidate = strip_negation(long);
        if long.len() > 0 && long[0] == '-' {
            None
        } else if names.contains_key(candidate) {
            let slot = names[candidate];
            let kind = match flags[slot as int].old_name {
                Some(o) => if o@ == candidate {
                    FlagLookupType::OldName
                } else {
                    FlagLookupType::Normal
                },
                None => FlagLookupType::Normal,
            };
            Some((kind, slot))
        } else {
            None
        }
    } else if t.len() >= 1 && t[0] == '-' {
        let short = t.skip(1);
        if abbreviations.contains_key(short) {
            Some((FlagLookupType::Abbreviation, abbreviations[short]))
        } else {
            None
        }
    } else {
        None
    }
}

/// The flag catalog with its lookup maps.
pub struct BazelFlags {
    commands: Vec<String>,
    flags: Vec<FlagInfo>,
    flags_by_commands: CommandMap,
    flags_by_name: SlotMap,
    flags_by_abbreviation: SlotMap,
    version_filter: Ghost<Option<Seq<char>>>,
}

impl BazelFlags {
    /// The catalog, indexed or not.
    pub closed spec fn catalog(&self) -> Seq<FlagInfo> {
        self.flags@
    }

    /// The version filter the maps were built with.
    pub closed spec fn filter(&self) -> Option<Seq<char>> {
        self.version_filter@
    }

    pub closed spec fn by_name(&self) -> Map<Seq<char>, usize> {
        self.flags_by_name@
    }

    pub closed spec fn by_abbreviation(&self) -> Map<Seq<char>, usize> {
        self.flags_by_abbreviation@
    }

    pub closed spec fn by_command(&self) -> Map<Seq<char>, Seq<usize>> {
        self.flags_by_commands@
    }

    pub closed spec fn command_names(&self) -> Seq<String> {
        self.commands@
    }

    /// What `token` resolves to in this index.
    pub open spec fn resolution(&self, token: Seq<char>) -> Option<(FlagLookupType, usize)> {
        resolve_token(self.by_name(), self.by_abbreviation(), self.catalog(), token)
    }

    pub closed spec fn maps_wf(&self) -> bool {
        self.flags_by_commands.wf() && self.flags_by_name.wf() && self.flags_by_abbreviation.wf()
    }

    /// The maps are the ones that the catalog and filter determine.
    pub open spec fn wf(&self) -> bool {
        let own = command_index(self.catalog(), self.filter());
        &&& self.maps_wf()
        &&& self.by_name() == name_index(self.catalog(), self.filter())
        &&& self.by_abbreviation() == abbreviation_index(self.catalog(), self.filter())
        &&& is_sorted_union(self.by_command()["common"@], own)
        &&& self.by_command() == own.insert("common"@, self.by_command()["common"@]).insert(
            "always"@,
            self.by_command()["common"@],
        )
        &&& forall|c: Seq<char>|
            recognised_command(self.by_command(), c) <==> exists|i: int|
                0 <= i < self.command_names().len() && #[trigger] self.command_names()[i]@ == c
    }
}

/// A slot stands in a list of `add_commands(m, cmds, slot)` exactly when it
/// stood in one of `m` or it is the appended slot and `cmds` is not empty.
pub proof fn lemma_add_commands_listed(m: Map<Seq<char>, Seq<usize>>, cmds: Seq<String>, slot: usize, s: usize)
    ensures
        listed(add_commands(m, cmds, slot), s) <==> (listed(m, s) || (s == slot && cmds.len() > 0)),
    decreases cmds.len(),
{
    if cmds.len() > 0 {
        let m1 = add_commands(m, cmds.drop_last(), slot);
        let c = cmds.last()@;
        let base = if m1.contains_key(c) { m1[c] } else { Seq::empty() };
        let r = m1.insert(c, base.push(slot));
        lemma_add_commands_listed(m, cmds.drop_last(), slot, s);
        assert(r[c].contains(slot)) by {
            assert(r[c][base.len() as int] == slot);
        }
        if listed(r, s) {
            let k = choose|k: Seq<char>| r.contains_key(k) && #[trigger] r[k].contains(s);
            if k != c {
                assert(m1.contains_key(k) && m1[k].contains(s));
            } else if s != slot {
                let t = choose|t: int| 0 <= t < r[c].len() && r[c][t] == s;
                assert(base[t] == s);
                assert(m1[c].contains(s));
            }
        }
        if listed(m1, s) {
            let k = choose|k: Seq<char>| m1.contains_key(k) && #[trigger] m1[k].contains(s);
            if k != c {
                assert(r.contains_key(k) && r[k].contains(s));
            } else {
                let t = choose|t: int| 0 <= t < m1[c].len() && m1[c][t] == s;
                assert(r[c][t] == s);
                assert(r.contains_key(c) && r[c].contains(s));
            }
        }
        if s == slot {
            assert(r.contains_key(c) && r[c].contains(s));
        }
    }
}

/// A slot stands in some command list exactly when its flag is indexed and
/// names at least one command.
pub proof fn lemma_command_index_listed(flags: Seq<FlagInfo>, filter: Option<Seq<char>>, s: usize)
    requires
        flags.len() <= usize::MAX,
    ensures
        listed(command_index(flags, filter), s) <==> (s < flags.len() && admitted(flags[s as int], filter)
            && flags[s as int].commands@.len() > 0),
    decreases flags.len(),
{
    if flags.len() > 0 {
        let prev = flags.drop_last();
        lemma_command_index_listed(prev, filter, s);
        if admitted(flags.last(), filter) {
            lemma_add_commands_listed(command_index(prev, filter), flags.last().commands@, (flags.len() - 1) as usize, s);
        }
    }
}

/// `add_commands` keeps every slot already listed, and lists `slot` under
/// each command of `cmds`.
pub proof fn lemma_add_commands_keeps(m: Map<Seq<char>, Seq<usize>>, cmds: Seq<String>, slot: usize)
    ensures
        forall|c: Seq<char>, s: usize|
            m.contains_key(c) && #[trigger] m[c].contains(s) ==> add_commands(m, cmds, slot).contains_key(c)
                && add_commands(m, cmds, slot)[c].contains(s),
        forall|j: int|
            0 <= j < cmds.len() ==> add_commands(m, cmds, slot).contains_key(#[trigger] cmds[j]@) && add_commands(
                m,
                cmds,
                slot,
            )[cmds[j]@].contains(slot),
    decreases cmds.len(),
{
    if cmds.len() > 0 {
        let prev = cmds.drop_last();
        lemma_add_commands_keeps(m, prev, slot);
        let m1 = add_commands(m, prev, slot);
        let c0 = cmds.last()@;
        let base = if m1.contains_key(c0) { m1[c0] } else { Seq::empty() };
        let r = add_commands(m, cmds, slot);
        assert(r[c0][base.len() as int] == slot);
        assert forall|c: Seq<char>, s: usize| m.contains_key(c) && #[trigger] m[c].contains(s) implies r.contains_key(c)
            && r[c].contains(s) by {
            assert(m1.contains_key(c) && m1[c].contains(s));
            if c == c0 {
                let t = choose|t: int| 0 <= t < m1[c].len() && m1[c][t] == s;
                assert(r[c][t] == s);
            }
        }
        assert forall|j: int| 0 <= j < cmds.len() implies r.contains_key(#[trigger] cmds[j]@) && r[cmds[j]@].contains(
            slot,
        ) by {
            if j < cmds.len() - 1 {
                assert(prev[j] == cmds[j]);
                let c = cmds[j]@;
                assert(m1.contains_key(c) && m1[c].contains(slot));
                if c == c0 {
                } else {
                    assert(r[c] == m1[c]);
                }
            }
        }
    }
}

/// An indexed flag's slot is listed under each of its commands.
pub proof fn lemma_command_index_lists_flag(flags: Seq<FlagInfo>, filter: Option<Seq<char>>, i: int)
    requires
        flags.len() <= usize::MAX,
        0 <= i < flags.len(),
        admitted(flags[i], filter),
    ensures
        forall|j: int|
            0 <= j < flags[i].commands@.len() ==> command_index(flags, filter).contains_key(
                #[trigger] flags[i].commands@[j]@,
            ) && command_index(flags, filter)[flags[i].commands@[j]@].contains(i as usize),
    decreases flags.len(),
{
    let prev = flags.drop_last();
    if i < flags.len() - 1 {
        assert(prev[i] == flags[i]);
        lemma_command_index_lists_flag(prev, filter, i);
        if admitted(flags.last(), filter) {
            lemma_add_commands_keeps(command_index(prev, filter), flags.last().commands@, (flags.len() - 1) as usize);
        }
    } else {
        lemma_add_commands_keeps(command_index(prev, filter), flags.last().commands@, (flags.len() - 1) as usize);
    }
}

/// Each name maps to the slot of an indexed flag.
pub proof fn lemma_name_index_slots(flags: Seq<FlagInfo>, filter: Option<Seq<char>>)
    requires
        flags.len() <= usize::MAX,
    ensures
        forall|k: Seq<char>| #[trigger] name_index(flags, filter).contains_key(k) ==> {
            let i = name_index(flags, filter)[k];
            i < flags.len() && admitted(flags[i as int], filter)
        },
    decreases flags.len(),
{
    if flags.len() > 0 {
        let prev = flags.drop_last();
        lemma_name_index_slots(prev, filter);
        let m = name_index(flags, filter);
        assert forall|k: Seq<char>| #[trigger] m.contains_key(k) implies m[k] < flags.len()
            && admitted(flags[m[k] as int], filter) by {
            if name_index(prev, filter).contains_key(k) && m[k] == name_index(prev, filter)[k] {
                assert(prev[m[k] as int] == flags[m[k] as int]);
            }
        }
    }
}

/// Each abbreviation maps to the slot of an indexed flag.
pub proof fn lemma_abbreviation_index_slots(flags: Seq<FlagInfo>, filter: Option<Seq<char>>)
    requires
        flags.len() <= usize::MAX,
    ensures
        forall|k: Seq<char>| #[trigger] abbreviation_index(flags, filter).contains_key(k) ==> {
            let i = abbreviation_index(flags, filter)[k];
            i < flags.len() && admitted(flags[i as int], filter)
        },
    decreases flags.len(),
{
    if flags.len() > 0 {
        let prev = flags.drop_last();
        lemma_abbreviation_index_slots(prev, filter);
        let m = abbreviation_index(flags, filter);
        assert forall|k: Seq<char>| #[trigger] m.contains_key(k) implies m[k] < flags.len()
            && admitted(flags[m[k] as int], filter) by {
            if abbreviation_index(prev, filter).contains_key(k) && m[k] == abbreviation_index(prev, filter)[k] {
                assert(prev[m[k] as int] == flags[m[k] as int]);
            }
        }
    }
}

fn admits(f: &FlagInfo, filter: &Option<String>) -> (r: bool)
    ensures
        r == admitted(*f, match filter { Some(v) => Some(v@), None => None }),
{
    match filter {
        Some(v) => contains_text(&f.bazel_versions, v),
        None => true,
    }
}

impl BazelFlags {
    /// Indexes `flags`. With a version filter, a flag whose version set lacks
    /// it keeps its slot but enters no map.
    pub fn from_flags(flags: Vec<FlagInfo>, bazel_version: Option<&str>) -> (r: BazelFlags)
        ensures
            r.wf(),
            r.catalog() == flags@,
            r.filter() == text_of(bazel_version),
    {
        let ghost fv = text_of(bazel_version);
        let filter: Option<String> = match bazel_version {
            Some(v) => Some(String::from_str(v)),
            None => None,
        };
        let mut flags_by_commands = CommandMap::new();
        let mut flags_by_name = SlotMap::new();
        let mut flags_by_abbreviation = SlotMap::new();
        let mut i: usize = 0;
        while i < flags.len()
            invariant
                i <= flags@.len(),
                fv == text_of(bazel_version),
                fv == (match filter { Some(v) => Some(v@), None => None::<Seq<char>> }),
                flags_by_commands.wf(),
                flags_by_name.wf(),
                flags_by_abbreviation.wf(),
                flags_by_name@ == name_index(flags@.take(i as int), fv),
                flags_by_abbreviation@ == abbreviation_index(flags@.take(i as int), fv),
                flags_by_commands@ == command_index(flags@.take(i as int), fv),
            decreases flags@.len() - i,
        {
            let f = &flags[i];
            proof {
                assert(flags@.take(i + 1).drop_last() =~= flags@.take(i as int));
                assert(flags@.take(i + 1).last() == flags@[i as int]);
            }
            if admits(f, &filter) {
                flags_by_name.insert(f.name.clone(), i);
                match &f.old_name {
                    Some(o) => flags_by_name.insert(o.clone(), i),
                    None => {},
                }
                let ghost before = flags_by_commands@;
                let mut j: usize = 0;
                while j < f.commands.len()
                    invariant
                        j <= f.commands@.len(),
                        flags_by_commands.wf(),
                        flags_by_commands@ == add_commands(before, f.commands@.take(j as int), i),
                    decreases f.commands@.len() - j,
                {
                    proof {
                        assert(f.commands@.take(j + 1).drop_last() =~= f.commands@.take(j as int));
                    }
                    flags_by_commands.push(&f.commands[j], i);
                    j += 1;
                }
                proof {
                    assert(f.commands@.take(f.commands@.len() as int) =~= f.commands@);
                }
                match &f.abbreviation {
                    Some(a) => flags_by_abbreviation.insert(a.clone(), i),
                    None => {},
                }
            }
            i += 1;
        }
        proof {
            assert(flags@.take(flags@.len() as int) =~= flags@);
        }
        let ghost own = flags_by_commands@;
        // Every real command's slots, in slot order and without repeats; a
        // flag is in some list exactly when it is indexed and names a command.
        let mut common: Vec<usize> = Vec::new();
        let mut always: Vec<usize> = Vec::new();
        let mut s: usize = 0;
        while s < flags.len()
            invariant
                s <= flags@.len(),
                own == command_index(flags@, fv),
                fv == (match filter { Some(v) => Some(v@), None => None::<Seq<char>> }),
                always@ == common@,
                forall|a: int, b: int| 0 <= a < b < common@.len() ==> common@[a] < common@[b],
                forall|a: int| 0 <= a < common@.len() ==> common@[a] < s,
                forall|x: usize| #[trigger] common@.contains(x) <==> (x < s && listed(own, x)),
            decreases flags@.len() - s,
        {
            proof {
                lemma_command_index_listed(flags@, fv, s);
            }
            let ghost prev = common@;
            if flags[s].commands.len() > 0 && admits(&flags[s], &filter) {
                common.push(s);
                always.push(s);
            }
            proof {
                assert forall|x: usize| #[trigger] common@.contains(x) <==> (x < s + 1 && listed(own, x)) by {
                    if common@.contains(x) && x != s {
                        let t = choose|t: int| 0 <= t < common@.len() && common@[t] == x;
                        if t == common@.len() - 1 && listed(own, s) {
                        } else {
                            assert(prev.contains(x)) by { assert(common@[t] == x); }
                        }
                    }
                    if x < s + 1 && listed(own, x) {
                        if x == s {
                            assert(common@[common@.len() - 1] == x);
                        } else {
                            assert(prev.contains(x));
                            let t = choose|t: int| 0 <= t < prev.len() && prev[t] == x;
                            assert(common@[t] == x);
                        }
                    }
                }
            }
            s += 1;
        }
        proof {
            assert forall|x: usize| #[trigger] common@.contains(x) <==> listed(own, x) by {
                lemma_command_index_listed(flags@, fv, x);
            }
        }
        let ghost common_view = common@;
        flags_by_commands.insert(String::from_str("common"), common);
        flags_by_commands.insert(String::from_str("always"), always);
        let keys = flags_by_commands.keys();
        let mut commands: Vec<String> = Vec::new();
        let mut k: usize = 0;
        while k < keys.len()
            invariant
                k <= keys@.len(),
                commands@.len() == k,
                forall|t: int| 0 <= t < k ==> #[trigger] commands@[t]@ == keys@[t]@,
            decreases keys@.len() - k,
        {
            commands.push(keys[k].clone());
            k += 1;
        }
        let ghost n_keys = commands@.len() as int;
        commands.push(String::from_str("import"));
        commands.push(String::from_str("try-import"));
        let r = BazelFlags {
            commands,
            flags,
            flags_by_commands,
            flags_by_name,
            flags_by_abbreviation,
            version_filter: Ghost(fv),
        };
        proof {
            reveal_strlit("common");
            reveal_strlit("always");
            assert("common"@ != "always"@) by {
                assert("common"@[0] != "always"@[0]);
            }
            assert(r.by_command()["common"@] == common_view);
            assert(is_sorted_union(r.by_command()["common"@], own));
            assert forall|c: Seq<char>|
                recognised_command(r.by_command(), c) <==> exists|i: int|
                    0 <= i < r.command_names().len() && #[trigger] r.command_names()[i]@ == c by {
                if r.by_command().contains_key(c) {
                    let t = choose|t: int| 0 <= t < keys@.len() && #[trigger] keys@[t]@ == c;
                    assert(r.command_names()[t]@ == c);
                }
                if c == "import"@ {
                    assert(r.command_names()[n_keys]@ == c);
                }
                if c == "try-import"@ {
                    assert(r.command_names()[n_keys + 1int]@ == c);
                }
                if exists|i: int| 0 <= i < r.command_names().len() && #[trigger] r.command_names()[i]@ == c {
                    let i = choose|i: int| 0 <= i < r.command_names().len() && #[trigger] r.command_names()[i]@ == c;
                    if i < n_keys {
                        assert(keys@[i]@ == c);
                    }
                }
            }
        }
        r
    }
}

impl BazelFlags {
    /// Resolves a literal token (`--name`, `--noname`, `--old_name`, `-a`,
    /// each with an optional trailing `=`) to a name form and a slot.
    pub fn resolve_slot(&self, token: &str) -> (r: Option<(FlagLookupType, usize)>)
        requires
            self.wf(),
        ensures
            r == self.resolution(token@),
            r matches Some((_, i)) ==> i < self.catalog().len(),
    {
        // The slot lemmas need the catalog's length to fit in a `usize`.
        let _n_flags = self.flags.len();
        proof {
            lemma_name_index_slots(self.flags@, self.version_filter@);
            lemma_abbreviation_index_slots(self.flags@, self.version_filter@);
        }
        let n = token.unicode_len();
        let t = if n > 0 && token.get_char(n - 1) == '=' {
            token.substring_char(0, n - 1)
        } else {
            token
        };
        proof {
            assert(t@ == strip_assign(token@));
        }
        let m = t.unicode_len();
        if m >= 2 && t.get_char(0) == '-' && t.get_char(1) == '-' {
            let long = t.substring_char(2, m);
            let ln = m - 2;
            if ln > 0 && long.get_char(0) == '-' {
                return None;
            }
            let candidate = if ln >= 2 && long.get_char(0) == 'n' && long.get_char(1) == 'o' {
                long.substring_char(2, ln)
            } else {
                long
            };
            proof {
                assert(candidate@ == strip_negation(long@));
            }
            let key = String::from_str(candidate);
            match self.flags_by_name.get(&key) {
                Some(i) => {
                    let kind = match &self.flags[i].old_name {
                        Some(o) => if *o == key {
                            FlagLookupType::OldName
                        } else {
                            FlagLookupType::Normal
                        },
                        None => FlagLookupType::Normal,
                    };
                    Some((kind, i))
                },
                None => None,
            }
        } else if m >= 1 && t.get_char(0) == '-' {
            let key = String::from_str(t.substring_char(1, m));
            match self.flags_by_abbreviation.get(&key) {
                Some(i) => Some((FlagLookupType::Abbreviation, i)),
                None => None,
            }
        } else {
            None
        }
    }

    /// Resolves a literal token to its name form and flag definition.
    pub fn get_by_invocation(&self, token: &str) -> (r: Option<(FlagLookupType, &FlagInfo)>)
        requires
            self.wf(),
        ensures
            match r {
                Some((kind, f)) => self.resolution(token@) is Some
                    && kind == self.resolution(token@).unwrap().0
                    && *f == self.catalog()[self.resolution(token@).unwrap().1 as int],
                None => self.resolution(token@) is None,
            },
    {
        match self.resolve_slot(token) {
            Some((kind, i)) => Some((kind, &self.flags[i])),
            None => None,
        }
    }

    /// The flag definitions, at their slots.
    pub fn flags(&self) -> (r: &Vec<FlagInfo>)
        ensures
            r@ == self.catalog(),
    {
        &self.flags
    }

    /// The recognised command names: those with a slot list, and the
    /// `import` and `try-import` directives.
    pub fn commands(&self) -> (r: &Vec<String>)
        ensures
            r@ == self.command_names(),
    {
        &self.commands
    }

    /// The slots of the flags that apply to `command`, in slot order.
    pub fn flags_for_command(&self, command: &str) -> (r: Option<&Vec<usize>>)
        requires
            self.wf(),
        ensures
            match r {
                Some(l) => self.by_command().contains_key(command@) && l@ == self.by_command()[command@],
                None => !self.by_command().contains_key(command@),
            },
    {
        self.flags_by_commands.get(&String::from_str(command))
    }

    /// The slot that the name map holds for a canonical or old name.
    pub fn slot_by_name(&self, name: &str) -> (r: Option<usize>)
        requires
            self.wf(),
        ensures
            r == self.by_name().get(name@),
    {
        self.flags_by_name.get(&String::from_str(name))
    }

    /// The slot that the abbreviation map holds for an abbreviation.
    pub fn slot_by_abbreviation(&self, abbreviation: &str) -> (r: Option<usize>)
        requires
            self.wf(),
        ensures
            r == self.by_abbreviation().get(abbreviation@),
    {
        self.flags_by_abbreviation.get(&String::from_str(abbreviation))
    }
}

/// Whether the old name of `f` is `k`.
pub open spec fn has_old_name(f: FlagInfo, k: Seq<char>) -> bool {
    f.old_name matches Some(o) && o@ == k
}

/// Whether the abbreviation of `f` is `k`.
pub open spec fn has_abbreviation(f: FlagInfo, k: Seq<char>) -> bool {
    f.abbreviation matches Some(a) && a@ == k
}

/// A long name that `--` can precede unchanged: it starts with neither `-`
/// nor `no`, and does not end in `=`.
pub open spec fn plain_long_name(n: Seq<char>) -> bool {
    &&& !(n.len() > 0 && n[0] == '-')
    &&& !(n.len() > 0 && n.last() == '=')
    &&& !(n.len() >= 2 && n[0] == 'n' && n[1] == 'o')
}

/// A short name that `-` can precede unchanged.
pub open spec fn plain_short_name(a: Seq<char>) -> bool {
    &&& !(a.len() > 0 && a[0] == '-')
    &&& !(a.len() > 0 && a.last() == '=')
}

/// A name of an indexed flag that no later indexed flag takes as its name or
/// old name maps to that flag's slot.
pub proof fn lemma_name_index_last(flags: Seq<FlagInfo>, filter: Option<Seq<char>>, i: int, k: Seq<char>)
    requires
        flags.len() <= usize::MAX,
        0 <= i < flags.len(),
        admitted(flags[i], filter),
        flags[i].name@ == k || has_old_name(flags[i], k),
        forall|j: int|
            i < j < flags.len() && admitted(#[trigger] flags[j], filter) ==> flags[j].name@ != k
                && !has_old_name(flags[j], k),
    ensures
        name_index(flags, filter).contains_key(k),
        name_index(flags, filter)[k] == i,
    decreases flags.len(),
{
    if i < flags.len() - 1 {
        let prev = flags.drop_last();
        assert forall|j: int| i < j < prev.len() && admitted(#[trigger] prev[j], filter) implies prev[j].name@ != k
            && !has_old_name(prev[j], k) by {
            assert(prev[j] == flags[j]);
        }
        assert(prev[i] == flags[i]);
        lemma_name_index_last(prev, filter, i, k);
        assert(flags.last() == flags[flags.len() - 1]);
    }
}

/// An abbreviation of an indexed flag that no later indexed flag takes maps
/// to that flag's slot.
pub proof fn lemma_abbreviation_index_last(flags: Seq<FlagInfo>, filter: Option<Seq<char>>, i: int, k: Seq<char>)
    requires
        flags.len() <= usize::MAX,
        0 <= i < flags.len(),
        admitted(flags[i], filter),
        has_abbreviation(flags[i], k),
        forall|j: int|
            i < j < flags.len() && admitted(#[trigger] flags[j], filter) ==> !has_abbreviation(flags[j], k),
    ensures
        abbreviation_index(flags, filter).contains_key(k),
        abbreviation_index(flags, filter)[k] == i,
    decreases flags.len(),
{
    if i < flags.len() - 1 {
        let prev = flags.drop_last();
        assert forall|j: int| i < j < prev.len() && admitted(#[trigger] prev[j], filter) implies !has_abbreviation(
            prev[j],
            k,
        ) by {
            assert(prev[j] == flags[j]);
        }
        assert(prev[i] == flags[i]);
        lemma_abbreviation_index_last(prev, filter, i, k);
        assert(flags.last() == flags[flags.len() - 1]);
    }
}

/// `--` followed by the canonical name of an indexed flag resolves to that
/// flag, as a normal name, where no later indexed flag takes the name, the
/// flag's old name differs from it, and the name is plain.
pub proof fn lemma_resolve_canonical(bf: BazelFlags, i: int)
    requires
        bf.wf(),
        bf.catalog().len() <= usize::MAX,
        0 <= i < bf.catalog().len(),
        admitted(bf.catalog()[i], bf.filter()),
        plain_long_name(bf.catalog()[i].name@),
        !has_old_name(bf.catalog()[i], bf.catalog()[i].name@),
        forall|j: int|
            i < j < bf.catalog().len() && admitted(#[trigger] bf.catalog()[j], bf.filter())
                ==> bf.catalog()[j].name@ != bf.catalog()[i].name@ && !has_old_name(
                bf.catalog()[j],
                bf.catalog()[i].name@,
            ),
    ensures
        bf.resolution("--"@ + bf.catalog()[i].name@) == Some((FlagLookupType::Normal, i as usize)),
{
    reveal_strlit("--");
    let n = bf.catalog()[i].name@;
    let t = "--"@ + n;
    lemma_name_index_last(bf.catalog(), bf.filter(), i, n);
    assert(strip_assign(t) == t) by {
        if n.len() > 0 {
            assert(t.last() == n.last());
        }
    }
    assert(t.skip(2) =~= n);
    assert(strip_negation(n) == n);
}

/// `-` followed by the abbreviation of an indexed flag resolves to that flag,
/// as an abbreviation, where no later indexed flag takes the abbreviation and
/// it is plain.
pub proof fn lemma_resolve_abbreviation(bf: BazelFlags, i: int, a: Seq<char>)
    requires
        bf.wf(),
        bf.catalog().len() <= usize::MAX,
        0 <= i < bf.catalog().len(),
        admitted(bf.catalog()[i], bf.filter()),
        has_abbreviation(bf.catalog()[i], a),
        plain_short_name(a),
        forall|j: int|
            i < j < bf.catalog().len() && admitted(#[trigger] bf.catalog()[j], bf.filter())
                ==> !has_abbreviation(bf.catalog()[j], a),
    ensures
        bf.resolution("-"@ + a) == Some((FlagLookupType::Abbreviation, i as usize)),
{
    reveal_strlit("-");
    let t = "-"@ + a;
    lemma_abbreviation_index_last(bf.catalog(), bf.filter(), i, a);
    assert(strip_assign(t) == t) by {
        if a.len() > 0 {
            assert(t.last() == a.last());
        }
    }
    assert(!(t.len() >= 2 && t[1] == '-')) by {
        if t.len() >= 2 {
            assert(t[1] == a[0]);
        }
    }
    assert(t.skip(1) =~= a);
}

/// A flag's abbreviation and its canonical name resolve to the same flag,
/// under the conditions of both lookups.
pub proof fn lemma_abbreviation_matches_canonical(bf: BazelFlags, i: int, a: Seq<char>)
    requires
        bf.wf(),
        bf.catalog().len() <= usize::MAX,
        0 <= i < bf.catalog().len(),
        admitted(bf.catalog()[i], bf.filter()),
        has_abbreviation(bf.catalog()[i], a),
        plain_short_name(a),
        forall|j: int|
            i < j < bf.catalog().len() && admitted(#[trigger] bf.catalog()[j], bf.filter())
                ==> !has_abbreviation(bf.catalog()[j], a),
        plain_long_name(bf.catalog()[i].name@),
        !has_old_name(bf.catalog()[i], bf.catalog()[i].name@),
        forall|j: int|
            i < j < bf.catalog().len() && admitted(#[trigger] bf.catalog()[j], bf.filter())
                ==> bf.catalog()[j].name@ != bf.catalog()[i].name@ && !has_old_name(
                bf.catalog()[j],
                bf.catalog()[i].name@,
            ),
    ensures
        bf.resolution("-"@ + a).unwrap().1 == bf.resolution("--"@ + bf.catalog()[i].name@).unwrap().1,
{
    lemma_resolve_canonical(bf, i);
    lemma_resolve_abbreviation(bf, i, a);
}

/// A long token whose name starts with `-` and a token without a leading `-`
/// resolve to nothing; so does a bare `--` unless the empty name is indexed.
pub proof fn lemma_malformed_tokens_unresolved(bf: BazelFlags)
    ensures
        bf.resolution("---x"@) is None,
        bf.resolution("plain"@) is None,
        !bf.by_name().contains_key(Seq::empty()) ==> bf.resolution("--"@) is None,
{
    reveal_strlit("---x");
    reveal_strlit("plain");
    reveal_strlit("--");
    assert(strip_assign("---x"@) == "---x"@);
    assert(strip_assign("plain"@) == "plain"@);
    assert(strip_assign("--"@) == "--"@);
    assert("--"@.skip(2) =~= Seq::<char>::empty());
}

/// The `common` list holds exactly the slots of the real commands' lists,
/// and `always` is the same list.
pub proof fn lemma_common_is_union(bf: BazelFlags)
    requires
        bf.wf(),
    ensures
        bf.by_command().contains_key("common"@),
        bf.by_command().contains_key("always"@),
        forall|s: usize|
            bf.by_command()["common"@].contains(s) <==> listed(command_index(bf.catalog(), bf.filter()), s),
        bf.by_command()["always"@] == bf.by_command()["common"@],
{
    reveal_strlit("common");
    reveal_strlit("always");
    assert("common"@ != "always"@) by {
        assert("common"@[0] != "always"@[0]);
    }
}

/// Built with a version that a flag lacks, the maps hold its slot nowhere;
/// built without a filter, the flag is listed under each of its commands, and
/// under `common` whenever it names one.
pub proof fn lemma_version_filter(filtered: BazelFlags, unfiltered: BazelFlags, v: Seq<char>, i: int)
    requires
        filtered.wf(),
        unfiltered.wf(),
        filtered.catalog() == unfiltered.catalog(),
        filtered.catalog().len() <= usize::MAX,
        filtered.filter() == Some(v),
        unfiltered.filter() is None,
        0 <= i < filtered.catalog().len(),
        !holds_text(filtered.catalog()[i].bazel_versions@, v),
    ensures
        forall|k: Seq<char>| #[trigger] filtered.by_name().contains_key(k) ==> filtered.by_name()[k] != i,
        forall|k: Seq<char>|
            #[trigger] filtered.by_abbreviation().contains_key(k) ==> filtered.by_abbreviation()[k] != i,
        forall|c: Seq<char>|
            #[trigger] filtered.by_command().contains_key(c) ==> !filtered.by_command()[c].contains(i as usize),
        unfiltered.catalog()[i].commands@.len() > 0 ==> unfiltered.by_command()["common"@].contains(i as usize),
        forall|j: int|
            0 <= j < unfiltered.catalog()[i].commands@.len() ==> unfiltered.by_command().contains_key(
                #[trigger] unfiltered.catalog()[i].commands@[j]@,
            ) && unfiltered.by_command()[unfiltered.catalog()[i].commands@[j]@].contains(i as usize),
{
    let flags = filtered.catalog();
    lemma_name_index_slots(flags, Some(v));
    lemma_abbreviation_index_slots(flags, Some(v));
    lemma_common_is_union(filtered);
    lemma_common_is_union(unfiltered);
    lemma_command_index_listed(flags, Some(v), i as usize);
    lemma_command_index_listed(flags, None, i as usize);
    lemma_command_index_lists_flag(flags, None, i);
    let all = command_index(flags, None);
    assert forall|j: int| 0 <= j < flags[i].commands@.len() implies unfiltered.by_command().contains_key(
        #[trigger] flags[i].commands@[j]@,
    ) && unfiltered.by_command()[flags[i].commands@[j]@].contains(i as usize) by {
        let c = flags[i].commands@[j]@;
        if c != "common"@ && c != "always"@ {
            assert(unfiltered.by_command()[c] == all[c]);
        } else {
            assert(listed(all, i as usize));
        }
    }
    let own = command_index(flags, Some(v));
    assert forall|c: Seq<char>| #[trigger] filtered.by_command().contains_key(c) implies !filtered.by_command()[c].contains(
        i as usize,
    ) by {
        if c != "common"@ && c != "always"@ {
            assert(filtered.by_command()[c] == own[c]);
            if own[c].contains(i as usize) {
                assert(listed(own, i as usize));
            }
        }
    }
}

} // verus!
