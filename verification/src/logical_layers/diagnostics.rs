//! Human-readable diagnostics of an association: names that stayed unresolved, and
//! exclusion evidence that was recorded or ignored.
use vstd::prelude::*;
use vstd::string::StringExecFns;

use super::group_paths::{text_before, text_precedes};
use super::scoring::{joined, texts};
use super::{AssociationDecision, AssociationDecisionStatus, AssociationExclusionKind};
use crate::text::decimal;

verus! {

/// How `{:?}` writes a string: quoted, with its special characters escaped.
pub uninterp spec fn debug_text(text: Seq<char>) -> Seq<char>;

/// Writes an index in decimal.
pub(crate) fn decimal_string(n: usize) -> (text: String)
    ensures
        text@ == decimal(n as int),
{
    crate::text::unsigned_text(n as u64)
}

/// Writes a string as `{:?}` does.
#[verifier::external_body]
pub(crate) fn debug_string(text: &String) -> (quoted: String)
    ensures
        quoted@ == debug_text(text@),
{
    format!("{:?}", text)
}

/// Joins copy suffixes with ` + `.
pub fn format_copy_suffixes(suffixes: &Vec<String>) -> (text: String)
    ensures
        text@ == joined(texts(suffixes@), " + "@),
{
    let mut text = String::new();
    let mut i: usize = 0;
    while i < suffixes.len()
        invariant
            i <= suffixes@.len(),
            text@ == joined(texts(suffixes@.take(i as int)), " + "@),
        decreases suffixes@.len() - i,
    {
        let ghost before = text@;
        if i > 0 {
            text.append(" + ");
        }
        text.append(suffixes[i].as_str());
        proof {
            let prefix = texts(suffixes@.take(i as int));
            let grown = texts(suffixes@.take(i as int + 1));
            assert(grown =~= prefix.push(suffixes@[i as int]@));
            lemma_joined_push(prefix, suffixes@[i as int]@, " + "@);
        }
        i = i + 1;
    }
    assert(suffixes@.take(suffixes@.len() as int) =~= suffixes@);
    text
}

proof fn lemma_joined_push(parts: Seq<Seq<char>>, part: Seq<char>, separator: Seq<char>)
    ensures
        joined(parts.push(part), separator) == if parts.len() == 0 { part } else { joined(parts, separator) + separator + part },
{
    if parts.len() == 0 {
        assert(parts.push(part) =~= seq![part]);
    } else {
        assert(parts.push(part).drop_last() =~= parts);
    }
}

/// Whether a decision's name deserves a diagnostic: its suffixes hit the parsing limit, or it
/// was ambiguous or opened a new track.
pub open spec fn name_noted(d: AssociationDecision) -> bool {
    d.suffix_limit_reached || d.status == AssociationDecisionStatus::Ambiguous || d.status == AssociationDecisionStatus::NewTrack
}

/// What a name diagnostic says of a decision's copy suffixes.
pub open spec fn suffix_text(d: AssociationDecision) -> Seq<char> {
    if d.copy_suffixes@.len() == 0 {
        "no recognized copy suffix"@
    } else {
        "recognized copy suffixes: "@ + joined(texts(d.copy_suffixes@), " + "@)
    }
}

/// The name diagnostic of a decision.
pub open spec fn name_note(d: AssociationDecision) -> Seq<char> {
    "frame "@ + decimal(d.frame_index as int) + " source "@ + decimal(d.source_layer_id as int) + " name "@
        + debug_text(d.original_name@) + " family "@ + debug_text(d.family_key@) + " -> track "@
        + decimal(d.track_id as int) + " ("@ + suffix_text(d) + ")"@
}

/// The name diagnostics of the decisions, in order.
pub open spec fn name_notes(decisions: Seq<AssociationDecision>) -> Seq<Seq<char>>
    decreases decisions.len(),
{
    if decisions.len() == 0 {
        Seq::empty()
    } else {
        let rest = name_notes(decisions.drop_last());
        if name_noted(decisions.last()) { rest.push(name_note(decisions.last())) } else { rest }
    }
}

fn name_message(d: &AssociationDecision) -> (message: String)
    ensures
        message@ == name_note(*d),
{
    let mut message = String::new();
    message.append("frame ");
    message.append(decimal_string(d.frame_index as usize).as_str());
    message.append(" source ");
    message.append(decimal_string(d.source_layer_id as usize).as_str());
    message.append(" name ");
    message.append(debug_string(&d.original_name).as_str());
    message.append(" family ");
    message.append(debug_string(&d.family_key).as_str());
    message.append(" -> track ");
    message.append(decimal_string(d.track_id).as_str());
    message.append(" (");
    if d.copy_suffixes.len() == 0 {
        message.append("no recognized copy suffix");
    } else {
        message.append("recognized copy suffixes: ");
        message.append(format_copy_suffixes(&d.copy_suffixes).as_str());
    }
    message.append(")");
    message
}

/// Lists the decisions whose names stayed unresolved: those whose suffix parsing hit its
/// limit, and the ambiguous and new-track decisions.
pub fn collect_name_diagnostics(decisions: &Vec<AssociationDecision>) -> (notes: Vec<String>)
    ensures
        texts(notes@) == name_notes(decisions@),
{
    let mut notes: Vec<String> = Vec::new();
    let mut i: usize = 0;
    assert(decisions@.take(0) =~= Seq::<AssociationDecision>::empty());
    assert(texts(notes@) =~= Seq::<Seq<char>>::empty());
    while i < decisions.len()
        invariant
            i <= decisions@.len(),
            texts(notes@) == name_notes(decisions@.take(i as int)),
        decreases decisions@.len() - i,
    {
        assert(decisions@.take(i as int + 1).drop_last() =~= decisions@.take(i as int));
        assert(decisions@.take(i as int + 1).last() == decisions@[i as int]);
        let d = &decisions[i];
        let noted = d.suffix_limit_reached || d.status == AssociationDecisionStatus::Ambiguous
            || d.status == AssociationDecisionStatus::NewTrack;
        if noted {
            let ghost before = texts(notes@);
            notes.push(name_message(d));
            assert(texts(notes@) =~= before.push(name_note(*d)));
        }
        i = i + 1;
    }
    assert(decisions@.take(decisions@.len() as int) =~= decisions@);
    notes
}

/// The label `{:?}` gives an exclusion kind; the absent relation reads `None`.
pub open spec fn exclusion_label(kind: AssociationExclusionKind) -> Seq<char> {
    match kind {
        AssociationExclusionKind::NoRelation => "None"@,
        AssociationExclusionKind::ObservedDisjoint => "ObservedDisjoint"@,
        AssociationExclusionKind::StructuralMutualExclusion => "StructuralMutualExclusion"@,
        AssociationExclusionKind::CoVisible => "CoVisible"@,
    }
}

/// A flag as text.
pub open spec fn flag_text(flag: bool) -> Seq<char> {
    if flag { "true"@ } else { "false"@ }
}

/// Whether a decision carries exclusion evidence, a same-frame conflict or ignored order
/// evidence.
pub open spec fn exclusion_noted(d: AssociationDecision) -> bool {
    d.exclusion_evidence != AssociationExclusionKind::NoRelation || d.same_frame_conflict || d.order_evidence_ignored
}

/// The exclusion diagnostic of a decision.
pub open spec fn exclusion_note(d: AssociationDecision) -> Seq<char> {
    "frame "@ + decimal(d.frame_index as int) + " source "@ + decimal(d.source_layer_id as int) + " name "@
        + debug_text(d.original_name@) + " -> track "@ + decimal(d.track_id as int) + " exclusion="@
        + exclusion_label(d.exclusion_evidence) + ", same_frame_conflict="@ + flag_text(d.same_frame_conflict)
        + ", order_ignored="@ + flag_text(d.order_evidence_ignored)
}

/// The exclusion diagnostics of the decisions, in order.
pub open spec fn exclusion_notes(decisions: Seq<AssociationDecision>) -> Seq<Seq<char>>
    decreases decisions.len(),
{
    if decisions.len() == 0 {
        Seq::empty()
    } else {
        let rest = exclusion_notes(decisions.drop_last());
        if exclusion_noted(decisions.last()) { rest.push(exclusion_note(decisions.last())) } else { rest }
    }
}

fn exclusion_label_str(kind: AssociationExclusionKind) -> (label: &'static str)
    ensures
        label@ == exclusion_label(kind),
{
    match kind {
        AssociationExclusionKind::NoRelation => "None",
        AssociationExclusionKind::ObservedDisjoint => "ObservedDisjoint",
        AssociationExclusionKind::StructuralMutualExclusion => "StructuralMutualExclusion",
        AssociationExclusionKind::CoVisible => "CoVisible",
    }
}

fn flag_str(flag: bool) -> (text: &'static str)
    ensures
        text@ == flag_text(flag),
{
    if flag { "true" } else { "false" }
}

fn exclusion_message(d: &AssociationDecision) -> (message: String)
    ensures
        message@ == exclusion_note(*d),
{
    let mut message = String::new();
    message.append("frame ");
    message.append(decimal_string(d.frame_index as usize).as_str());
    message.append(" source ");
    message.append(decimal_string(d.source_layer_id as usize).as_str());
    message.append(" name ");
    message.append(debug_string(&d.original_name).as_str());
    message.append(" -> track ");
    message.append(decimal_string(d.track_id).as_str());
    message.append(" exclusion=");
    message.append(exclusion_label_str(d.exclusion_evidence));
    message.append(", same_frame_conflict=");
    message.append(flag_str(d.same_frame_conflict));
    message.append(", order_ignored=");
    message.append(flag_str(d.order_evidence_ignored));
    message
}

/// Lists the decisions that carry exclusion evidence, a same-frame conflict or ignored
/// order evidence.
pub fn collect_exclusion_diagnostics(decisions: &Vec<AssociationDecision>) -> (notes: Vec<String>)
    ensures
        texts(notes@) == exclusion_notes(decisions@),
{
    let mut notes: Vec<String> = Vec::new();
    let mut i: usize = 0;
    assert(decisions@.take(0) =~= Seq::<AssociationDecision>::empty());
    assert(texts(notes@) =~= Seq::<Seq<char>>::empty());
    while i < decisions.len()
        invariant
            i <= decisions@.len(),
            texts(notes@) == exclusion_notes(decisions@.take(i as int)),
        decreases decisions@.len() - i,
    {
        assert(decisions@.take(i as int + 1).drop_last() =~= decisions@.take(i as int));
        assert(decisions@.take(i as int + 1).last() == decisions@[i as int]);
        let d = &decisions[i];
        let noted = d.exclusion_evidence != AssociationExclusionKind::NoRelation || d.same_frame_conflict
            || d.order_evidence_ignored;
        if noted {
            let ghost before = texts(notes@);
            notes.push(exclusion_message(d));
            assert(texts(notes@) =~= before.push(exclusion_note(*d)));
        }
        i = i + 1;
    }
    assert(decisions@.take(decisions@.len() as int) =~= decisions@);
    notes
}

/// The first position from `from` on whose text `x` sorts before, or the end.
pub open spec fn insert_position(acc: Seq<Seq<char>>, x: Seq<char>, from: int) -> int
    decreases acc.len() - from,
{
    if from < 0 || from >= acc.len() {
        acc.len() as int
    } else if text_before(x, acc[from]) {
        from
    } else {
        insert_position(acc, x, from + 1)
    }
}

/// Texts after adding `x` unless present, before the first text it sorts before.
pub open spec fn sorted_insert(acc: Seq<Seq<char>>, x: Seq<char>) -> Seq<Seq<char>> {
    if acc.contains(x) {
        acc
    } else {
        acc.insert(insert_position(acc, x, 0), x)
    }
}

/// The distinct texts of a list in ascending order.
pub open spec fn sorted_distinct(items: Seq<Seq<char>>) -> Seq<Seq<char>>
    decreases items.len(),
{
    if items.len() == 0 {
        Seq::empty()
    } else {
        sorted_insert(sorted_distinct(items.drop_last()), items.last())
    }
}

proof fn lemma_insert_position(acc: Seq<Seq<char>>, x: Seq<char>, from: int)
    requires
        0 <= from <= acc.len(),
    ensures
        from <= insert_position(acc, x, from) <= acc.len(),
    decreases acc.len() - from,
{
    if from < acc.len() {
        lemma_insert_position(acc, x, from + 1);
    }
}

/// Adds a text to an ascending list of distinct texts unless present.
fn insert_sorted_text(acc: &mut Vec<String>, x: String)
    ensures
        texts(final(acc)@) == sorted_insert(texts(old(acc)@), x@),
{
    let ghost items = texts(acc@);
    let mut i: usize = 0;
    while i < acc.len()
        invariant
            i <= acc@.len(),
            items == texts(acc@),
            acc@ == old(acc)@,
            forall|q: int| 0 <= q < i ==> (#[trigger] acc@[q])@ != x@,
        decreases acc@.len() - i,
    {
        if acc[i] == x {
            assert(items[i as int] == x@);
            assert(items.contains(x@));
            return;
        }
        i = i + 1;
    }
    assert(!items.contains(x@)) by {
        if items.contains(x@) {
            let q = choose|q: int| 0 <= q < items.len() && items[q] == x@;
            assert(acc@[q]@ == x@);
        }
    }
    let mut p: usize = 0;
    proof {
        lemma_insert_position(items, x@, 0);
    }
    while p < acc.len() && !text_precedes(&x, &acc[p])
        invariant
            p <= acc@.len(),
            items == texts(acc@),
            acc@ == old(acc)@,
            insert_position(items, x@, 0) == insert_position(items, x@, p as int),
        decreases acc@.len() - p,
    {
        p = p + 1;
    }
    let ghost x_view = x@;
    acc.insert(p, x);
    assert(texts(acc@) =~= items.insert(p as int, x_view));
}

/// The decisions of one name family, in order.
pub open spec fn family_members(decisions: Seq<AssociationDecision>, key: Seq<char>) -> Seq<AssociationDecision>
    decreases decisions.len(),
{
    if decisions.len() == 0 {
        Seq::empty()
    } else {
        let rest = family_members(decisions.drop_last(), key);
        if decisions.last().family_key@ == key { rest.push(decisions.last()) } else { rest }
    }
}

/// The family keys of the decisions, skipping empty keys.
pub open spec fn family_key_list(decisions: Seq<AssociationDecision>) -> Seq<Seq<char>>
    decreases decisions.len(),
{
    if decisions.len() == 0 {
        Seq::empty()
    } else {
        let rest = family_key_list(decisions.drop_last());
        if decisions.last().family_key@.len() > 0 { rest.push(decisions.last().family_key@) } else { rest }
    }
}

/// How `{:?}` writes a list of strings.
pub open spec fn debug_list(items: Seq<Seq<char>>) -> Seq<char> {
    "["@ + joined(items.map_values(|item: Seq<char>| debug_text(item)), ", "@) + "]"@
}

/// The mapping label of a decision: its name, an arrow and its track.
pub open spec fn mapping_text(d: AssociationDecision) -> Seq<char> {
    d.original_name@ + "->"@ + decimal(d.track_id as int)
}

/// The distinct tracks of the members, in first-seen order.
pub open spec fn distinct_tracks(members: Seq<AssociationDecision>) -> Seq<usize>
    decreases members.len(),
{
    if members.len() == 0 {
        Seq::empty()
    } else {
        let rest = distinct_tracks(members.drop_last());
        if rest.contains(members.last().track_id) { rest } else { rest.push(members.last().track_id) }
    }
}

/// How many members were ambiguous or tied in their matching.
pub open spec fn ambiguous_count(members: Seq<AssociationDecision>) -> nat
    decreases members.len(),
{
    if members.len() == 0 {
        0
    } else {
        ambiguous_count(members.drop_last())
            + if members.last().status == AssociationDecisionStatus::Ambiguous || members.last().matching_tie { 1nat } else { 0nat }
    }
}

/// Whether some member carries a copy suffix.
pub open spec fn has_copy_suffix(members: Seq<AssociationDecision>) -> bool {
    exists|i: int| 0 <= i < members.len() && (#[trigger] members[i]).copy_suffixes@.len() > 0
}

/// The summary of one family.
pub open spec fn family_note(key: Seq<char>, members: Seq<AssociationDecision>) -> Seq<char> {
    "family "@ + debug_text(key) + ": "@ + decimal(members.len() as int) + " observations -> "@
        + decimal(distinct_tracks(members).len() as int) + " tracks; variants="@
        + debug_list(sorted_distinct(members.map_values(|d: AssociationDecision| d.original_name@)))
        + "; mappings="@ + debug_list(sorted_distinct(members.map_values(|d: AssociationDecision| mapping_text(d))))
        + "; ambiguous="@ + decimal(ambiguous_count(members) as int)
}

/// The summaries of the families among `keys` with a copy suffix, in order.
pub open spec fn family_notes_for(decisions: Seq<AssociationDecision>, keys: Seq<Seq<char>>) -> Seq<Seq<char>>
    decreases keys.len(),
{
    if keys.len() == 0 {
        Seq::empty()
    } else {
        let rest = family_notes_for(decisions, keys.drop_last());
        let members = family_members(decisions, keys.last());
        if has_copy_suffix(members) { rest.push(family_note(keys.last(), members)) } else { rest }
    }
}

/// The family summaries: for every family with a copy suffix, in ascending key order.
pub open spec fn family_notes(decisions: Seq<AssociationDecision>) -> Seq<Seq<char>> {
    family_notes_for(decisions, sorted_distinct(family_key_list(decisions)))
}

/// Writes a list of strings as `{:?}` does.
fn debug_list_string(items: &Vec<String>) -> (text: String)
    ensures
        text@ == debug_list(texts(items@)),
{
    let ghost quoted = texts(items@).map_values(|item: Seq<char>| debug_text(item));
    let mut inner = String::new();
    let mut i: usize = 0;
    while i < items.len()
        invariant
            i <= items@.len(),
            quoted == texts(items@).map_values(|item: Seq<char>| debug_text(item)),
            inner@ == joined(quoted.take(i as int), ", "@),
        decreases items@.len() - i,
    {
        if i > 0 {
            inner.append(", ");
        }
        let q = debug_string(&items[i]);
        inner.append(q.as_str());
        proof {
            assert(quoted[i as int] == debug_text(items@[i as int]@));
            assert(quoted.take(i as int + 1) =~= quoted.take(i as int).push(quoted[i as int]));
            lemma_joined_push(quoted.take(i as int), quoted[i as int], ", "@);
        }
        i = i + 1;
    }
    assert(quoted.take(items@.len() as int) =~= quoted);
    let mut text = String::new();
    text.append("[");
    text.append(inner.as_str());
    text.append("]");
    text
}

fn mapping_string(d: &AssociationDecision) -> (text: String)
    ensures
        text@ == mapping_text(*d),
{
    let mut text = String::new();
    text.append(d.original_name.as_str());
    text.append("->");
    text.append(decimal_string(d.track_id).as_str());
    text
}

fn contains_index(items: &Vec<usize>, x: usize) -> (found: bool)
    ensures
        found == items@.contains(x),
{
    let mut i: usize = 0;
    while i < items.len()
        invariant
            i <= items@.len(),
            forall|q: int| 0 <= q < i ==> items@[q] != x,
        decreases items@.len() - i,
    {
        if items[i] == x {
            return true;
        }
        i = i + 1;
    }
    false
}

/// The summary of the family with the given key, if one of its decisions carries a copy
/// suffix.
fn family_summary(decisions: &Vec<AssociationDecision>, key: &String) -> (summary: Option<String>)
    ensures
        match summary {
            Some(text) => has_copy_suffix(family_members(decisions@, key@)) && text@ == family_note(key@, family_members(decisions@, key@)),
            None => !has_copy_suffix(family_members(decisions@, key@)),
        },
{
    let mut count: usize = 0;
    let mut tracks: Vec<usize> = Vec::new();
    let mut variants: Vec<String> = Vec::new();
    let mut mappings: Vec<String> = Vec::new();
    let mut ambiguous: usize = 0;
    let mut suffixed = false;
    let mut i: usize = 0;
    assert(decisions@.take(0) =~= Seq::<AssociationDecision>::empty());
    assert(texts(variants@) =~= Seq::<Seq<char>>::empty());
    assert(texts(mappings@) =~= Seq::<Seq<char>>::empty());
    while i < decisions.len()
        invariant
            i <= decisions@.len(),
            count == family_members(decisions@.take(i as int), key@).len(),
            count <= i,
            tracks@ == distinct_tracks(family_members(decisions@.take(i as int), key@)),
            texts(variants@) == sorted_distinct(family_members(decisions@.take(i as int), key@).map_values(|d: AssociationDecision| d.original_name@)),
            texts(mappings@) == sorted_distinct(family_members(decisions@.take(i as int), key@).map_values(|d: AssociationDecision| mapping_text(d))),
            ambiguous == ambiguous_count(family_members(decisions@.take(i as int), key@)),
            ambiguous <= count,
            suffixed == has_copy_suffix(family_members(decisions@.take(i as int), key@)),
        decreases decisions@.len() - i,
    {
        let ghost prefix = decisions@.take(i as int);
        let ghost members = family_members(prefix, key@);
        assert(decisions@.take(i as int + 1).drop_last() =~= prefix);
        assert(decisions@.take(i as int + 1).last() == decisions@[i as int]);
        let d = &decisions[i];
        if d.family_key == *key {
            let ghost grown = members.push(*d);
            assert(grown.drop_last() =~= members);
            count = count + 1;
            if !contains_index(&tracks, d.track_id) {
                tracks.push(d.track_id);
            }
            insert_sorted_text(&mut variants, d.original_name.clone());
            insert_sorted_text(&mut mappings, mapping_string(d));
            if d.status == AssociationDecisionStatus::Ambiguous || d.matching_tie {
                ambiguous = ambiguous + 1;
            }
            if d.copy_suffixes.len() > 0 {
                suffixed = true;
            }
            proof {
                assert(grown.map_values(|e: AssociationDecision| e.original_name@)
                    =~= members.map_values(|e: AssociationDecision| e.original_name@).push(d.original_name@));
                assert(grown.map_values(|e: AssociationDecision| e.original_name@).drop_last()
                    =~= members.map_values(|e: AssociationDecision| e.original_name@));
                assert(grown.map_values(|e: AssociationDecision| mapping_text(e)).drop_last()
                    =~= members.map_values(|e: AssociationDecision| mapping_text(e)));
                assert(grown.map_values(|e: AssociationDecision| mapping_text(e)).last() == mapping_text(*d));
                if suffixed && !has_copy_suffix(members) {
                    assert(grown[grown.len() - 1].copy_suffixes@.len() > 0);
                }
                if has_copy_suffix(grown) && !has_copy_suffix(members) {
                    let q = choose|q: int| 0 <= q < grown.len() && (#[trigger] grown[q]).copy_suffixes@.len() > 0;
                    if q < members.len() {
                        assert(members[q] == grown[q]);
                    }
                }
                if has_copy_suffix(members) {
                    let q = choose|q: int| 0 <= q < members.len() && (#[trigger] members[q]).copy_suffixes@.len() > 0;
                    assert(grown[q] == members[q]);
                }
            }
        }
        i = i + 1;
    }
    assert(decisions@.take(decisions@.len() as int) =~= decisions@);
    if !suffixed {
        return None;
    }
    let mut text = String::new();
    text.append("family ");
    text.append(debug_string(key).as_str());
    text.append(": ");
    text.append(decimal_string(count).as_str());
    text.append(" observations -> ");
    text.append(decimal_string(tracks.len()).as_str());
    text.append(" tracks; variants=");
    text.append(debug_list_string(&variants).as_str());
    text.append("; mappings=");
    text.append(debug_list_string(&mappings).as_str());
    text.append("; ambiguous=");
    text.append(decimal_string(ambiguous).as_str());
    Some(text)
}

/// Summarizes every name family that carries a copy suffix, in ascending key order: its
/// observation and track counts, its name variants, its name-to-track mappings and how
/// many of its decisions were ambiguous.
pub fn collect_family_diagnostics(decisions: &Vec<AssociationDecision>) -> (notes: Vec<String>)
    ensures
        texts(notes@) == family_notes(decisions@),
{
    let mut keys: Vec<String> = Vec::new();
    let mut i: usize = 0;
    assert(decisions@.take(0) =~= Seq::<AssociationDecision>::empty());
    assert(texts(keys@) =~= Seq::<Seq<char>>::empty());
    while i < decisions.len()
        invariant
            i <= decisions@.len(),
            texts(keys@) == sorted_distinct(family_key_list(decisions@.take(i as int))),
        decreases decisions@.len() - i,
    {
        assert(decisions@.take(i as int + 1).drop_last() =~= decisions@.take(i as int));
        assert(decisions@.take(i as int + 1).last() == decisions@[i as int]);
        if !decisions[i].family_key.as_str().is_empty() {
            let ghost list = family_key_list(decisions@.take(i as int));
            insert_sorted_text(&mut keys, decisions[i].family_key.clone());
            assert(list.push(decisions@[i as int].family_key@).drop_last() =~= list);
        } else {
            assert(decisions@[i as int].family_key@.len() == 0);
        }
        i = i + 1;
    }
    assert(decisions@.take(decisions@.len() as int) =~= decisions@);
    let ghost all_keys = texts(keys@);
    let mut notes: Vec<String> = Vec::new();
    let mut k: usize = 0;
    assert(all_keys.take(0) =~= Seq::<Seq<char>>::empty());
    assert(texts(notes@) =~= Seq::<Seq<char>>::empty());
    while k < keys.len()
        invariant
            k <= keys@.len(),
            all_keys == texts(keys@),
            texts(notes@) == family_notes_for(decisions@, all_keys.take(k as int)),
        decreases keys@.len() - k,
    {
        assert(all_keys.take(k as int + 1).drop_last() =~= all_keys.take(k as int));
        assert(all_keys.take(k as int + 1).last() == keys@[k as int]@);
        match family_summary(decisions, &keys[k]) {
            Some(text) => {
                let ghost before = texts(notes@);
                notes.push(text);
                assert(texts(notes@) =~= before.push(family_note(keys@[k as int]@, family_members(decisions@, keys@[k as int]@))));
            },
            None => {},
        }
        k = k + 1;
    }
    assert(all_keys.take(keys@.len() as int) =~= all_keys);
    notes
}

} // verus!
