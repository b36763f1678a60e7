//! The decisions that tie scanned Photoshop animation metadata to the normalized layer
//! tree: whether there is an animation at all, whether its catalog is present and not
//! empty, which raw layer record belongs to each layer, and which animation flags apply.
use vstd::prelude::*;

use crate::photoshop_animation::{
    index_raw_layers, input_layer_invalid, merge_flags, raw_layer_invalid, validate_input_layers, AnimationFlags,
    AnimationLayerInput, AnimationParseError, RawLayer,
};

verus! {

/// Whether some raw layer carries `shmd` metadata.
pub open spec fn has_layer_animation(raw: Seq<RawLayer>) -> bool {
    exists|i: int| 0 <= i < raw.len() && (#[trigger] raw[i]).shmd is Some
}

/// Whether the input layers are free of missing and repeated IDs.
pub open spec fn inputs_valid(layers: Seq<AnimationLayerInput>) -> bool {
    forall|i: int| 0 <= i < layers.len() ==> !input_layer_invalid(layers, i)
}

/// The text of an animation whose layers carry metadata but whose document lacks a catalog.
pub open spec fn catalog_required_text() -> Seq<char> {
    "layer animation metadata exists without a 4000/4003 frame catalog"@
}

/// The text of a catalog without frames.
pub open spec fn empty_catalog_text() -> Seq<char> {
    "animation catalog contains no frames"@
}

/// Decides, before the catalog is read, whether the document has an animation: none
/// where there is neither a catalog descriptor nor layer metadata (`Ok(false)`); otherwise
/// the input layers must have distinct IDs, and layer metadata without a catalog is an
/// error (`Ok(true)` means the catalog is to be read).
pub fn animation_inputs_decision(has_descriptors: bool, raw: &Vec<RawLayer>, layers: &Vec<AnimationLayerInput>) -> (decision: Result<bool, AnimationParseError>)
    ensures
        !has_descriptors && !has_layer_animation(raw@) ==> decision == Ok::<bool, AnimationParseError>(false),
        has_descriptors || has_layer_animation(raw@) ==> match decision {
            Ok(present) => present && has_descriptors && inputs_valid(layers@),
            Err(e) => !inputs_valid(layers@) || (!has_descriptors && (e matches AnimationParseError::InvalidData(m) && m@ == catalog_required_text())),
        },
        has_descriptors || has_layer_animation(raw@) ==> (inputs_valid(layers@) && has_descriptors <==> decision is Ok),
{
    let mut any_shmd = false;
    let mut i: usize = 0;
    while i < raw.len()
        invariant
            i <= raw@.len(),
            any_shmd == exists|j: int| 0 <= j < i && (#[trigger] raw@[j]).shmd is Some,
        decreases raw@.len() - i,
    {
        if raw[i].shmd.is_some() {
            any_shmd = true;
        }
        i = i + 1;
    }
    if !has_descriptors && !any_shmd {
        return Ok(false);
    }
    match validate_input_layers(layers) {
        Ok(()) => {},
        Err(e) => {
            return Err(e);
        },
    }
    if !has_descriptors {
        return Err(AnimationParseError::InvalidData("layer animation metadata exists without a 4000/4003 frame catalog".to_owned()));
    }
    Ok(true)
}

/// Rejects a catalog without frames.
pub fn require_catalog_frames(frame_count: usize) -> (checked: Result<(), AnimationParseError>)
    ensures
        frame_count > 0 <==> checked is Ok,
        checked matches Err(e) ==> (e matches AnimationParseError::InvalidData(m) && m@ == empty_catalog_text()),
{
    if frame_count == 0 {
        return Err(AnimationParseError::InvalidData("animation catalog contains no frames".to_owned()));
    }
    Ok(())
}

/// Whether some input layer has the ID.
pub open spec fn known_id(layers: Seq<AnimationLayerInput>, id: u32) -> bool {
    exists|l: int| 0 <= l < layers.len() && (#[trigger] layers[l]).id == id
}

/// Whether a raw layer record has an ID that some input layer has.
pub open spec fn record_known(layers: Seq<AnimationLayerInput>, record: RawLayer) -> bool {
    match record.id {
        Some(id) => known_id(layers, id),
        None => false,
    }
}

/// Whether raw layer `r` is the first whose ID no input layer has.
pub open spec fn first_unknown(raw: Seq<RawLayer>, layers: Seq<AnimationLayerInput>, r: int) -> bool {
    &&& 0 <= r < raw.len()
    &&& raw[r].id is Some
    &&& !known_id(layers, raw[r].id->0)
    &&& forall|q: int| 0 <= q < r ==> record_known(layers, #[trigger] raw[q]) || raw[q].id is None
}

/// Whether some raw layer has the ID.
pub open spec fn has_record(raw: Seq<RawLayer>, id: u32) -> bool {
    exists|r: int| 0 <= r < raw.len() && (#[trigger] raw[r]).id == Some(id)
}

/// The flags the layers carry, in layer order, the direct `mdyn` flags before the nested
/// ones, for the first `n` layers matched to the given records.
pub open spec fn carried_flags(raw: Seq<RawLayer>, matched: Seq<usize>, n: int) -> Seq<AnimationFlags>
    decreases n,
{
    if n <= 0 {
        Seq::empty()
    } else {
        let record = raw[matched[n - 1] as int];
        let direct: Seq<AnimationFlags> = match record.flags { Some(f) => seq![f], None => Seq::empty() };
        let nested: Seq<AnimationFlags> = match record.shmd {
            Some(m) => match m.flags { Some(f) => seq![f], None => Seq::empty() },
            None => Seq::empty(),
        };
        carried_flags(raw, matched, n - 1) + direct + nested
    }
}

/// Whether all flags agree.
pub open spec fn flags_agree(flags: Seq<AnimationFlags>) -> bool {
    forall|i: int| 0 <= i < flags.len() ==> #[trigger] flags[i] == flags[0]
}

/// Matches every input layer to the raw layer record with its ID and merges the animation
/// flags. Raw records must have distinct IDs; a record whose ID no input layer has is an
/// error, as is an input layer without a record, and flags that disagree.
pub fn match_raw_layers(raw: &Vec<RawLayer>, layers: &Vec<AnimationLayerInput>) -> (matched: Result<(Vec<usize>, Option<AnimationFlags>), AnimationParseError>)
    ensures
        match matched {
            Ok((records, flags)) => {
                &&& forall|i: int| 0 <= i < raw@.len() ==> !raw_layer_invalid(raw@, i)
                &&& forall|r: int| 0 <= r < raw@.len() ==> record_known(layers@, #[trigger] raw@[r])
                &&& records@.len() == layers@.len()
                &&& forall|l: int| 0 <= l < layers@.len() ==> (#[trigger] records@[l]) < raw@.len()
                    && raw@[records@[l] as int].id == Some(layers@[l].id)
                &&& flags_agree(carried_flags(raw@, records@, layers@.len() as int))
                &&& flags == (if carried_flags(raw@, records@, layers@.len() as int).len() == 0 { None } else {
                    Some(carried_flags(raw@, records@, layers@.len() as int)[0])
                })
            },
            Err(e) => {
                ||| exists|i: int| 0 <= i < raw@.len() && raw_layer_invalid(raw@, i)
                ||| (forall|i: int| 0 <= i < raw@.len() ==> !raw_layer_invalid(raw@, i)) && exists|r: int| #[trigger] first_unknown(raw@, layers@, r)
                    && e == AnimationParseError::UnknownLayerId(raw@[r].id->0)
                ||| (forall|r: int| 0 <= r < raw@.len() ==> record_known(layers@, #[trigger] raw@[r])) && exists|l: int| {
                    &&& 0 <= l < layers@.len()
                    &&& !has_record(raw@, #[trigger] layers@[l].id)
                    &&& forall|k: int| 0 <= k < l ==> has_record(raw@, #[trigger] layers@[k].id)
                    &&& e matches AnimationParseError::MissingLayerId { path } && path@ == layers@[l].path@
                }
                ||| e matches AnimationParseError::InvalidData(m) && m@ == "conflicting mdyn flags across layers"@
            },
        },
{
    match index_raw_layers(raw) {
        Ok(()) => {},
        Err(e) => {
            return Err(e);
        },
    }
    let mut r: usize = 0;
    while r < raw.len()
        invariant
            r <= raw@.len(),
            forall|i: int| 0 <= i < raw@.len() ==> !raw_layer_invalid(raw@, i),
            forall|q: int| 0 <= q < r ==> record_known(layers@, #[trigger] raw@[q]),
        decreases raw@.len() - r,
    {
        assert(!raw_layer_invalid(raw@, r as int));
        let id = match raw[r].id {
            Some(id) => id,
            None => 0,
        };
        let mut known = false;
        let mut l: usize = 0;
        while l < layers.len()
            invariant
                l <= layers@.len(),
                known == exists|k: int| 0 <= k < l && (#[trigger] layers@[k]).id == id,
            decreases layers@.len() - l,
        {
            if layers[l].id == id {
                known = true;
            }
            l = l + 1;
        }
        if !known {
            proof {
                assert(first_unknown(raw@, layers@, r as int));
            }
            return Err(AnimationParseError::UnknownLayerId(id));
        }
        r = r + 1;
    }
    let mut records: Vec<usize> = Vec::new();
    let mut flags: Option<AnimationFlags> = None;
    let mut l: usize = 0;
    while l < layers.len()
        invariant
            l <= layers@.len(),
            forall|i: int| 0 <= i < raw@.len() ==> !raw_layer_invalid(raw@, i),
            forall|q: int| 0 <= q < raw@.len() ==> record_known(layers@, #[trigger] raw@[q]),
            records@.len() == l,
            forall|k: int| 0 <= k < l ==> has_record(raw@, #[trigger] layers@[k].id),
            forall|k: int| 0 <= k < l ==> (#[trigger] records@[k]) < raw@.len() && raw@[records@[k] as int].id == Some(layers@[k].id),
            flags_agree(carried_flags(raw@, records@, l as int)),
            flags == (if carried_flags(raw@, records@, l as int).len() == 0 { None } else {
                Some(carried_flags(raw@, records@, l as int)[0])
            }),
        decreases layers@.len() - l,
    {
        let layer = &layers[l];
        let mut found: Option<usize> = None;
        let mut r: usize = 0;
        while r < raw.len()
            invariant
                r <= raw@.len(),
                match found {
                    Some(x) => x < raw@.len() && raw@[x as int].id == Some(layer.id),
                    None => forall|q: int| 0 <= q < r ==> (#[trigger] raw@[q]).id != Some(layer.id),
                },
            decreases raw@.len() - r,
        {
            if found.is_none() {
                if let Some(id) = raw[r].id {
                    if id == layer.id {
                        found = Some(r);
                    }
                }
            }
            r = r + 1;
        }
        let index = match found {
            Some(x) => x,
            None => {
                proof {
                    assert(!has_record(raw@, layers@[l as int].id));
                }
                return Err(AnimationParseError::MissingLayerId { path: layer.path.clone() });
            },
        };
        let ghost before = records@;
        records.push(index);
        proof {
            assert(forall|k: int| 0 <= k < l ==> records@[k] == before[k]);
            assert(carried_flags(raw@, records@, l as int) == carried_flags(raw@, before, l as int)) by {
                lemma_carried_prefix(raw@, before, records@, l as int);
            }
            assert(has_record(raw@, layers@[l as int].id)) by {
                assert(raw@[index as int].id == Some(layers@[l as int].id));
            }
        }
        let ghost prefix = carried_flags(raw@, records@, l as int);
        if let Some(raw_flags) = raw[index].flags {
            let ghost f0 = flags;
            flags = match merge_flags(flags, raw_flags) {
                Ok(merged) => merged,
                Err(e) => {
                    return Err(e);
                },
            };
            proof {
                assert(prefix.push(raw_flags).len() == prefix.len() + 1);
            }
        }
        let ghost middle: Seq<AnimationFlags> = match raw@[index as int].flags { Some(f) => prefix.push(f), None => prefix };
        assert(flags_agree(middle) && flags == (if middle.len() == 0 { None } else { Some(middle[0]) })) by {
            if raw@[index as int].flags is Some {
                assert forall|i: int| 0 <= i < middle.len() implies #[trigger] middle[i] == middle[0] by {
                    if prefix.len() > 0 {
                        assert(middle[0] == prefix[0]);
                    }
                }
            }
        }
        let nested = match &raw[index].shmd {
            Some(metadata) => metadata.flags,
            None => None,
        };
        if let Some(raw_flags) = nested {
            flags = match merge_flags(flags, raw_flags) {
                Ok(merged) => merged,
                Err(e) => {
                    return Err(e);
                },
            };
        }
        let ghost last: Seq<AnimationFlags> = match nested { Some(f) => middle.push(f), None => middle };
        proof {
            if nested is Some {
                assert forall|i: int| 0 <= i < last.len() implies #[trigger] last[i] == last[0] by {
                    if middle.len() > 0 {
                        assert(last[0] == middle[0]);
                    }
                }
            }
            let record = raw@[records@[l as int] as int];
            let direct: Seq<AnimationFlags> = match record.flags { Some(f) => seq![f], None => Seq::empty() };
            let inner: Seq<AnimationFlags> = match record.shmd {
                Some(m) => match m.flags { Some(f) => seq![f], None => Seq::empty() },
                None => Seq::empty(),
            };
            assert(carried_flags(raw@, records@, l + 1) == prefix + direct + inner);
            assert(prefix + direct + inner =~= last);
        }
        l = l + 1;
    }
    Ok((records, flags))
}

proof fn lemma_carried_prefix(raw: Seq<RawLayer>, a: Seq<usize>, b: Seq<usize>, n: int)
    requires
        0 <= n <= a.len(),
        n <= b.len(),
        forall|k: int| 0 <= k < n ==> a[k] == b[k],
    ensures
        carried_flags(raw, a, n) == carried_flags(raw, b, n),
    decreases n,
{
    if n > 0 {
        lemma_carried_prefix(raw, a, b, n - 1);
    }
}

} // verus!
