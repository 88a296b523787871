use vstd::prelude::*;

use crate::index::{BazelFlags, FlagLookupType};

verus! {

/// A range of source positions.
#[derive(Clone, Copy, Debug, PartialEq, Eq, Structural)]
pub struct Span {
    pub start: usize,
    pub end: usize,
}

/// A token's text with its source range.
pub type Spanned = (String, Span);

/// One flag occurrence on a line: an optional name token and an optional
/// value token.
pub struct Flag {
    pub name: Option<Spanned>,
    pub value: Option<Spanned>,
}

/// The flag occurrences of one line.
pub struct Line {
    pub flags: Vec<Flag>,
}

/// The text and range of a token.
pub type SpannedText = (Seq<char>, Span);

/// The model of a flag occurrence.
pub struct Occurrence {
    pub name: Option<SpannedText>,
    pub value: Option<SpannedText>,
}

pub open spec fn spanned_view(s: Option<Spanned>) -> Option<SpannedText> {
    match s {
        Some(t) => Some((t.0@, t.1)),
        None => None,
    }
}

impl View for Flag {
    type V = Occurrence;

    open spec fn view(&self) -> Occurrence {
        Occurrence { name: spanned_view(self.name), value: spanned_view(self.value) }
    }
}

/// The models of a sequence of occurrences.
pub open spec fn occurrences(v: Seq<Flag>) -> Seq<Occurrence> {
    v.map_values(|f: Flag| f@)
}

/// Whether the occurrence takes the following occurrence as its value: it
/// has a name and no value, the name resolves other than by abbreviation,
/// and the flag requires a value.
pub open spec fn absorbs(bf: BazelFlags, f: Occurrence) -> bool {
    &&& f.value is None
    &&& f.name is Some
    &&& match bf.resolution(f.name.unwrap().0) {
        Some((kind, slot)) => kind != FlagLookupType::Abbreviation && bf.catalog()[slot as int].requires_value,
        None => false,
    }
}

/// The value made of a following occurrence: `name=value` over both tokens,
/// or the one token it has, or nothing.
pub open spec fn joined(next: Occurrence) -> Option<SpannedText> {
    match next.name {
        Some(n) => match next.value {
            Some(v) => Some((n.0 + "="@ + v.0, Span { start: n.1.start, end: v.1.end })),
            None => Some(n),
        },
        None => next.value,
    }
}

/// The merged occurrences from position `i` on.
pub open spec fn merge_from(bf: BazelFlags, fl: Seq<Occurrence>, i: int) -> Seq<Occurrence>
    decreases fl.len() - i,
{
    if i < 0 || i >= fl.len() {
        Seq::empty()
    } else if absorbs(bf, fl[i]) && i + 1 < fl.len() {
        let head = match joined(fl[i + 1]) {
            Some(v) => Occurrence { name: fl[i].name, value: Some(v) },
            None => fl[i],
        };
        seq![head] + merge_from(bf, fl, i + 2)
    } else {
        seq![fl[i]] + merge_from(bf, fl, i + 1)
    }
}

/// The occurrences of a line after merging.
pub open spec fn merged(bf: BazelFlags, fl: Seq<Occurrence>) -> Seq<Occurrence> {
    merge_from(bf, fl, 0)
}

fn copy_spanned(s: &Option<Spanned>) -> (r: Option<Spanned>)
    ensures
        spanned_view(r) == spanned_view(*s),
{
    match s {
        Some(t) => Some((t.0.clone(), t.1)),
        None => None,
    }
}

fn copy_flag(f: &Flag) -> (r: Flag)
    ensures
        r@ == f@,
{
    Flag { name: copy_spanned(&f.name), value: copy_spanned(&f.value) }
}

fn absorbs_next(bf: &BazelFlags, f: &Flag) -> (r: bool)
    requires
        bf.wf(),
    ensures
        r == absorbs(*bf, f@),
{
    if f.value.is_some() {
        return false;
    }
    match &f.name {
        Some(n) => match bf.resolve_slot(n.0.as_str()) {
            Some((kind, slot)) => kind != FlagLookupType::Abbreviation && bf.flags()[slot].requires_value,
            None => false,
        },
        None => false,
    }
}

fn join(next: &Flag) -> (r: Option<Spanned>)
    ensures
        spanned_view(r) == joined(next@),
{
    match &next.name {
        Some(n) => match &next.value {
            Some(v) => {
                let mut text = n.0.clone();
                text.append("=");
                text.append(v.0.as_str());
                Some((text, Span { start: n.1.start, end: v.1.end }))
            },
            None => Some((n.0.clone(), n.1)),
        },
        None => copy_spanned(&next.value),
    }
}

/// Merges one line's occurrences: a flag that requires a value and has none
/// takes the following occurrence as its value.
pub fn merge_line(flags: &Vec<Flag>, bazel_flags: &BazelFlags) -> (r: Vec<Flag>)
    requires
        bazel_flags.wf(),
    ensures
        occurrences(r@) == merged(*bazel_flags, occurrences(flags@)),
{
    let ghost fl = occurrences(flags@);
    let mut out: Vec<Flag> = Vec::new();
    let mut i: usize = 0;
    while i < flags.len()
        invariant
            bazel_flags.wf(),
            fl == occurrences(flags@),
            i <= flags@.len(),
            occurrences(out@) + merge_from(*bazel_flags, fl, i as int) == merged(*bazel_flags, fl),
        decreases flags@.len() - i,
    {
        let ghost before = out@;
        let ghost i0 = i as int;
        let flag = &flags[i];
        if absorbs_next(bazel_flags, flag) && i + 1 < flags.len() {
            let next = &flags[i + 1];
            match join(next) {
                Some(v) => out.push(Flag { name: copy_spanned(&flag.name), value: Some(v) }),
                None => out.push(copy_flag(flag)),
            }
            i += 2;
        } else {
            out.push(copy_flag(flag));
            i += 1;
        }
        proof {
            assert(occurrences(out@) =~= occurrences(before) + seq![out@[out@.len() - 1]@]);
            assert(occurrences(out@) + merge_from(*bazel_flags, fl, i as int)
                =~= occurrences(before) + merge_from(*bazel_flags, fl, i0));
        }
    }
    proof {
        assert(occurrences(out@) =~= occurrences(out@) + merge_from(*bazel_flags, fl, i as int));
    }
    out
}

/// Merges every line in place: each line's occurrences are replaced by their
/// merged form.
pub fn combine_key_value_flags(lines: &mut Vec<Line>, bazel_flags: &BazelFlags)
    requires
        bazel_flags.wf(),
    ensures
        final(lines)@.len() == old(lines)@.len(),
        forall|k: int|
            0 <= k < old(lines)@.len() ==> occurrences(#[trigger] final(lines)@[k].flags@) == merged(
                *bazel_flags,
                occurrences(old(lines)@[k].flags@),
            ),
{
    let mut out: Vec<Line> = Vec::new();
    let mut k: usize = 0;
    while k < lines.len()
        invariant
            bazel_flags.wf(),
            k <= lines@.len(),
            out@.len() == k,
            forall|t: int|
                0 <= t < k ==> occurrences(#[trigger] out@[t].flags@) == merged(
                    *bazel_flags,
                    occurrences(lines@[t].flags@),
                ),
        decreases lines@.len() - k,
    {
        let merged_flags = merge_line(&lines[k].flags, bazel_flags);
        out.push(Line { flags: merged_flags });
        k += 1;
    }
    *lines = out;
}

/// Every occurrence carries a name or a value.
pub open spec fn all_carry_text(fl: Seq<Occurrence>) -> bool {
    forall|k: int| 0 <= k < fl.len() ==> (#[trigger] fl[k]).name is Some || fl[k].value is Some
}

/// No occurrence but the last would take the following one as its value.
pub open spec fn settled(bf: BazelFlags, fl: Seq<Occurrence>) -> bool {
    forall|k: int| 0 <= k < fl.len() - 1 ==> !absorbs(bf, #[trigger] fl[k])
}

proof fn lemma_settled_unchanged(bf: BazelFlags, fl: Seq<Occurrence>, i: int)
    requires
        settled(bf, fl),
        0 <= i <= fl.len(),
    ensures
        merge_from(bf, fl, i) == fl.subrange(i, fl.len() as int),
    decreases fl.len() - i,
{
    if i < fl.len() {
        lemma_settled_unchanged(bf, fl, i + 1);
        assert(merge_from(bf, fl, i) =~= fl.subrange(i, fl.len() as int));
    } else {
        assert(merge_from(bf, fl, i) =~= fl.subrange(i, fl.len() as int));
    }
}

proof fn lemma_merge_settles(bf: BazelFlags, fl: Seq<Occurrence>, i: int)
    requires
        all_carry_text(fl),
        0 <= i,
    ensures
        settled(bf, merge_from(bf, fl, i)),
        all_carry_text(merge_from(bf, fl, i)),
    decreases fl.len() - i,
{
    if i < fl.len() {
        let r = merge_from(bf, fl, i);
        if absorbs(bf, fl[i]) && i + 1 < fl.len() {
            lemma_merge_settles(bf, fl, i + 2);
            let rest = merge_from(bf, fl, i + 2);
            assert(joined(fl[i + 1]) is Some);
            assert forall|k: int| 0 <= k < r.len() - 1 implies !absorbs(bf, #[trigger] r[k]) by {
                if k > 0 {
                    assert(r[k] == rest[k - 1]);
                }
            }
            assert forall|k: int| 0 <= k < r.len() implies (#[trigger] r[k]).name is Some || r[k].value is Some by {
                if k > 0 {
                    assert(r[k] == rest[k - 1]);
                }
            }
        } else {
            lemma_merge_settles(bf, fl, i + 1);
            let rest = merge_from(bf, fl, i + 1);
            if i + 1 >= fl.len() {
                assert(rest.len() == 0);
            }
            assert forall|k: int| 0 <= k < r.len() - 1 implies !absorbs(bf, #[trigger] r[k]) by {
                if k > 0 {
                    assert(r[k] == rest[k - 1]);
                }
            }
            assert forall|k: int| 0 <= k < r.len() implies (#[trigger] r[k]).name is Some || r[k].value is Some by {
                if k > 0 {
                    assert(r[k] == rest[k - 1]);
                }
            }
        }
    }
}

/// Merging a line twice gives what merging it once gives, for lines whose
/// occurrences each carry a name or a value.
pub proof fn lemma_merge_idempotent(bf: BazelFlags, fl: Seq<Occurrence>)
    requires
        all_carry_text(fl),
    ensures
        merged(bf, merged(bf, fl)) == merged(bf, fl),
{
    lemma_merge_settles(bf, fl, 0);
    lemma_settled_unchanged(bf, merged(bf, fl), 0);
    assert(merged(bf, fl).subrange(0, merged(bf, fl).len() as int) =~= merged(bf, fl));
}

/// When the scan reaches an occurrence whose name resolves as an
/// abbreviation, that occurrence is emitted unchanged and the following
/// occurrence is scanned in its own right; where the following one takes no
/// value itself, both stand unchanged side by side in the output.
pub proof fn lemma_abbreviation_not_merged(bf: BazelFlags, fl: Seq<Occurrence>, i: int)
    requires
        0 <= i < fl.len(),
        fl[i].name is Some,
        bf.resolution(fl[i].name.unwrap().0) matches Some((kind, _)) && kind == FlagLookupType::Abbreviation,
    ensures
        merge_from(bf, fl, i) == seq![fl[i]] + merge_from(bf, fl, i + 1),
        i + 1 < fl.len() && !absorbs(bf, fl[i + 1]) ==> merge_from(bf, fl, i).take(2) == seq![fl[i], fl[i + 1]],
{
    if i + 1 < fl.len() && !absorbs(bf, fl[i + 1]) {
        assert(merge_from(bf, fl, i).take(2) =~= seq![fl[i], fl[i + 1]]);
    }
}

} // verus!
