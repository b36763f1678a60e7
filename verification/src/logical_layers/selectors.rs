//! Frame-selector groups: sibling groups that each show pixels in their own frames only, so
//! that they select what a frame shows rather than hold persistent content.
use vstd::prelude::*;

use super::{frames_disjoint, lists_disjoint, FrameContainerInfo};
use crate::model::{enabled_in, NormalizedLayer, NormalizedLayerKind};

verus! {

/// Whether a layer shows at least one pixel layer in frame `f`, given whether its ancestors
/// are visible.
pub open spec fn shows_pixel(layer: NormalizedLayer, f: int, ancestors_visible: bool) -> bool
    decreases layer,
{
    let visible = ancestors_visible && enabled_in(layer, f);
    match layer.kind {
        NormalizedLayerKind::Pixel => visible,
        NormalizedLayerKind::Group => shows_pixel_in(layer.children@, f, visible),
    }
}

/// Whether one of a list of sibling layers shows a pixel layer in frame `f`.
pub open spec fn shows_pixel_in(layers: Seq<NormalizedLayer>, f: int, ancestors_visible: bool) -> bool
    decreases layers,
{
    if layers.len() == 0 {
        false
    } else {
        shows_pixel(layers[0], f, ancestors_visible) || shows_pixel_in(layers.subrange(1, layers.len() as int), f, ancestors_visible)
    }
}

/// Whether a layer shows a visible pixel layer in a frame, given whether its ancestors are
/// visible.
pub fn has_visible_pixel(layer: &NormalizedLayer, frame_index: usize, ancestors_visible: bool) -> (shows: bool)
    ensures
        shows == shows_pixel(*layer, frame_index as int, ancestors_visible),
    decreases layer,
{
    let visible = layer.is_effectively_visible(frame_index, ancestors_visible);
    match layer.kind {
        NormalizedLayerKind::Pixel => visible,
        NormalizedLayerKind::Group => {
            let mut i: usize = 0;
            assert(layer.children@.subrange(0, layer.children@.len() as int) =~= layer.children@);
            while i < layer.children.len()
                invariant
                    i <= layer.children@.len(),
                    layer.kind == NormalizedLayerKind::Group,
                    visible == (ancestors_visible && enabled_in(*layer, frame_index as int)),
                    shows_pixel(*layer, frame_index as int, ancestors_visible)
                        == shows_pixel_in(layer.children@.subrange(i as int, layer.children@.len() as int), frame_index as int, visible),
                decreases layer.children@.len() - i,
            {
                let ghost tail = layer.children@.subrange(i as int, layer.children@.len() as int);
                proof {
                    assert(tail[0] == layer.children@[i as int]);
                    assert(tail.subrange(1, tail.len() as int) =~= layer.children@.subrange(i as int + 1, layer.children@.len() as int));
                    assert(decreases_to!(layer => layer.children));
                }
                if has_visible_pixel(&layer.children[i], frame_index, visible) {
                    return true;
                }
                i = i + 1;
            }
            false
        },
    }
}

/// The frames before `count` in which a layer shows a pixel layer, ascending.
pub open spec fn active_frame_list(layer: NormalizedLayer, count: int) -> Seq<usize>
    decreases count,
{
    if count <= 0 {
        Seq::empty()
    } else if shows_pixel(layer, count - 1, true) {
        active_frame_list(layer, count - 1).push((count - 1) as usize)
    } else {
        active_frame_list(layer, count - 1)
    }
}

/// The frames in which a layer shows a visible pixel layer.
pub fn active_frames(layer: &NormalizedLayer, frame_count: usize) -> (frames: Vec<usize>)
    ensures
        frames@ == active_frame_list(*layer, frame_count as int),
{
    let mut frames: Vec<usize> = Vec::new();
    let mut f: usize = 0;
    while f < frame_count
        invariant
            f <= frame_count,
            frames@ == active_frame_list(*layer, f as int),
        decreases frame_count - f,
    {
        if has_visible_pixel(layer, f, true) {
            frames.push(f);
        }
        f = f + 1;
    }
    frames
}

/// The group layers among siblings, in order.
pub open spec fn group_layers(layers: Seq<NormalizedLayer>) -> Seq<NormalizedLayer>
    decreases layers.len(),
{
    if layers.len() == 0 {
        Seq::empty()
    } else if layers.last().kind == NormalizedLayerKind::Group {
        group_layers(layers.drop_last()).push(layers.last())
    } else {
        group_layers(layers.drop_last())
    }
}

/// Whether every two of a list of frame lists share no frame.
pub open spec fn pairwise_disjoint(sets: Seq<Seq<usize>>) -> bool {
    forall|a: int, b: int| 0 <= a < b < sets.len() ==> #[trigger] frames_disjoint(sets[a], sets[b])
}

/// The total length of a list of frame lists.
pub open spec fn total_len(sets: Seq<Seq<usize>>) -> int
    decreases sets.len(),
{
    if sets.len() == 0 {
        0
    } else {
        total_len(sets.drop_last()) + sets.last().len()
    }
}

/// The active frames of each of a list of layers.
pub open spec fn frame_sets(groups: Seq<NormalizedLayer>, count: int) -> Seq<Seq<usize>> {
    groups.map_values(|g: NormalizedLayer| active_frame_list(g, count))
}

/// Whether sibling groups select frames: at least two of them, their active frames pairwise
/// disjoint and, together, at least two frames.
pub open spec fn selects_frames(groups: Seq<NormalizedLayer>, count: int) -> bool {
    let sets = frame_sets(groups, count);
    &&& groups.len() >= 2
    &&& pairwise_disjoint(sets)
    &&& total_len(sets) >= 2
}

/// A selector entry as the contracts see it: group ID, parent ID, active frames.
pub open spec fn info_view(info: FrameContainerInfo) -> (u32, Option<u32>, Seq<usize>) {
    (info.id, info.parent_id, info.active_frames@)
}

/// The selector entries of a list of entries.
pub open spec fn info_views(infos: Seq<FrameContainerInfo>) -> Seq<(u32, Option<u32>, Seq<usize>)> {
    infos.map_values(|info: FrameContainerInfo| info_view(info))
}

/// The entries one sibling list contributes itself: one per group sibling when they select
/// frames.
pub open spec fn level_entries(layers: Seq<NormalizedLayer>, count: int, parent: Option<u32>) -> Seq<(u32, Option<u32>, Seq<usize>)> {
    let groups = group_layers(layers);
    if selects_frames(groups, count) {
        groups.map_values(|g: NormalizedLayer| (g.id, parent, active_frame_list(g, count)))
    } else {
        Seq::empty()
    }
}

/// The selector entries found in a list of siblings and below it, in discovery order.
pub open spec fn selector_entries(layers: Seq<NormalizedLayer>, count: int, parent: Option<u32>) -> Seq<(u32, Option<u32>, Seq<usize>)>
    decreases layers, 1nat,
{
    level_entries(layers, count, parent) + nested_entries(layers, count)
}

/// The selector entries found below each group of a list of siblings, in order.
pub open spec fn nested_entries(layers: Seq<NormalizedLayer>, count: int) -> Seq<(u32, Option<u32>, Seq<usize>)>
    decreases layers, 0nat,
{
    if layers.len() == 0 {
        Seq::empty()
    } else {
        let head = if layers[0].kind == NormalizedLayerKind::Group {
            selector_entries(layers[0].children@, count, Some(layers[0].id))
        } else {
            Seq::empty()
        };
        head + nested_entries(layers.subrange(1, layers.len() as int), count)
    }
}

/// The position of the entry for group `id`, searching from `from`.
pub open spec fn entry_index(entries: Seq<(u32, Option<u32>, Seq<usize>)>, id: u32, from: int) -> Option<int>
    decreases entries.len() - from,
{
    if from < 0 || from >= entries.len() {
        None
    } else if entries[from].0 == id {
        Some(from)
    } else {
        entry_index(entries, id, from + 1)
    }
}

/// The entries after recording `entry`: an entry for the same group is replaced in place,
/// otherwise the entry is appended.
pub open spec fn upsert(entries: Seq<(u32, Option<u32>, Seq<usize>)>, entry: (u32, Option<u32>, Seq<usize>)) -> Seq<(u32, Option<u32>, Seq<usize>)> {
    match entry_index(entries, entry.0, 0) {
        Some(i) => entries.update(i, entry),
        None => entries.push(entry),
    }
}

/// The entries after recording each of `found` in turn.
pub open spec fn upsert_all(entries: Seq<(u32, Option<u32>, Seq<usize>)>, found: Seq<(u32, Option<u32>, Seq<usize>)>) -> Seq<(u32, Option<u32>, Seq<usize>)>
    decreases found.len(),
{
    if found.len() == 0 {
        entries
    } else {
        upsert_all(upsert(entries, found[0]), found.subrange(1, found.len() as int))
    }
}

proof fn lemma_upsert_all_concat(entries: Seq<(u32, Option<u32>, Seq<usize>)>, a: Seq<(u32, Option<u32>, Seq<usize>)>, b: Seq<(u32, Option<u32>, Seq<usize>)>)
    ensures
        upsert_all(entries, a + b) == upsert_all(upsert_all(entries, a), b),
    decreases a.len(),
{
    if a.len() == 0 {
        assert(a + b =~= b);
    } else {
        assert((a + b)[0] == a[0]);
        assert((a + b).subrange(1, (a + b).len() as int) =~= a.subrange(1, a.len() as int) + b);
        lemma_upsert_all_concat(upsert(entries, a[0]), a.subrange(1, a.len() as int), b);
    }
}

proof fn lemma_upsert_all_push(entries: Seq<(u32, Option<u32>, Seq<usize>)>, a: Seq<(u32, Option<u32>, Seq<usize>)>, e: (u32, Option<u32>, Seq<usize>))
    ensures
        upsert_all(entries, a.push(e)) == upsert(upsert_all(entries, a), e),
{
    lemma_upsert_all_concat(entries, a, seq![e]);
    assert(a.push(e) =~= a + seq![e]);
    let single = seq![e];
    let mid = upsert_all(entries, a);
    assert(single.subrange(1, 1) =~= Seq::<(u32, Option<u32>, Seq<usize>)>::empty());
    assert(single[0] == e);
    assert(upsert_all(upsert(mid, e), Seq::<(u32, Option<u32>, Seq<usize>)>::empty()) == upsert(mid, e));
    assert(upsert_all(mid, single) == upsert_all(upsert(mid, e), single.subrange(1, 1)));
}

fn copy_frames(source: &Vec<usize>) -> (copy: Vec<usize>)
    ensures
        copy@ == source@,
{
    let mut copy: Vec<usize> = Vec::new();
    let mut i: usize = 0;
    while i < source.len()
        invariant
            i <= source@.len(),
            copy@ == source@.take(i as int),
        decreases source@.len() - i,
    {
        copy.push(source[i]);
        assert(source@.take(i as int + 1) =~= source@.take(i as int).push(source@[i as int]));
        i = i + 1;
    }
    assert(source@.take(source@.len() as int) =~= source@);
    copy
}

/// Records a selector entry, replacing an earlier entry for the same group.
fn record_selector(selectors: &mut Vec<FrameContainerInfo>, info: FrameContainerInfo)
    ensures
        info_views(final(selectors)@) == upsert(info_views(old(selectors)@), info_view(info)),
{
    let ghost views = info_views(selectors@);
    let mut i: usize = 0;
    while i < selectors.len()
        invariant
            i <= selectors@.len(),
            views == info_views(selectors@),
            selectors@ == old(selectors)@,
            entry_index(views, info.id, 0) == entry_index(views, info.id, i as int),
        decreases selectors@.len() - i,
    {
        if selectors[i].id == info.id {
            selectors.set(i, info);
            assert(info_views(selectors@) =~= views.update(i as int, info_view(info)));
            return;
        }
        i = i + 1;
    }
    selectors.push(info);
    assert(info_views(selectors@) =~= views.push(info_view(info)));
}

proof fn lemma_total_len_prefix(sets: Seq<Seq<usize>>, k: int)
    requires
        0 <= k <= sets.len(),
    ensures
        total_len(sets.take(k)) <= total_len(sets),
    decreases sets.len() - k,
{
    if k < sets.len() {
        lemma_total_len_prefix(sets, k + 1);
        assert(sets.take(k + 1).drop_last() =~= sets.take(k));
    } else {
        assert(sets.take(k) =~= sets);
    }
}

/// Records the frame-selector groups among `layers` and below them: where at least two
/// sibling groups show pixels in pairwise disjoint frames, together at least two frames,
/// each of them is recorded with its parent and its active frames; an entry for a group
/// already recorded is replaced.
pub fn identify_selector_siblings(layers: &Vec<NormalizedLayer>, frame_count: usize, parent_id: Option<u32>, selectors: &mut Vec<FrameContainerInfo>)
    ensures
        info_views(final(selectors)@) == upsert_all(info_views(old(selectors)@), selector_entries(layers@, frame_count as int, parent_id)),
    decreases layers@,
{
    let ghost count = frame_count as int;
    let mut sets: Vec<Vec<usize>> = Vec::new();
    let mut ids: Vec<u32> = Vec::new();
    let mut i: usize = 0;
    assert(layers@.take(0) =~= Seq::<NormalizedLayer>::empty());
    while i < layers.len()
        invariant
            i <= layers@.len(),
            count == frame_count as int,
            sets@.len() == group_layers(layers@.take(i as int)).len(),
            ids@.len() == sets@.len(),
            forall|k: int| 0 <= k < sets@.len() ==> (#[trigger] sets@[k])@ == active_frame_list(group_layers(layers@.take(i as int))[k], count),
            forall|k: int| 0 <= k < ids@.len() ==> #[trigger] ids@[k] == group_layers(layers@.take(i as int))[k].id,
        decreases layers@.len() - i,
    {
        assert(layers@.take(i as int + 1).drop_last() =~= layers@.take(i as int));
        assert(layers@.take(i as int + 1).last() == layers@[i as int]);
        if layers[i].kind == NormalizedLayerKind::Group {
            let frames = active_frames(&layers[i], frame_count);
            sets.push(frames);
            ids.push(layers[i].id);
        }
        i = i + 1;
    }
    assert(layers@.take(layers@.len() as int) =~= layers@);
    let ghost groups = group_layers(layers@);
    let ghost set_views = frame_sets(groups, count);
    assert(set_views.len() == sets@.len());
    assert forall|k: int| 0 <= k < sets@.len() implies (#[trigger] sets@[k])@ == set_views[k] by {}
    let mut disjoint = sets.len() >= 2;
    let mut a: usize = 0;
    while a < sets.len() && disjoint
        invariant
            a <= sets@.len(),
            set_views.len() == sets@.len(),
            forall|k: int| 0 <= k < sets@.len() ==> (#[trigger] sets@[k])@ == set_views[k],
            disjoint ==> sets@.len() >= 2,
            disjoint ==> forall|x: int, y: int| 0 <= x < a && x < y < set_views.len() ==> #[trigger] frames_disjoint(set_views[x], set_views[y]),
            !disjoint ==> !selects_frames(groups, count),
            groups == group_layers(layers@),
            set_views == frame_sets(groups, count),
        decreases sets@.len() - a,
    {
        let mut b: usize = a + 1;
        while b < sets.len() && disjoint
            invariant
                a < sets@.len(),
                a < b <= sets@.len(),
                set_views.len() == sets@.len(),
                forall|k: int| 0 <= k < sets@.len() ==> (#[trigger] sets@[k])@ == set_views[k],
                disjoint ==> sets@.len() >= 2,
                disjoint ==> forall|x: int, y: int| 0 <= x < a && x < y < set_views.len() ==> #[trigger] frames_disjoint(set_views[x], set_views[y]),
                disjoint ==> forall|y: int| a < y < b ==> #[trigger] frames_disjoint(set_views[a as int], set_views[y]),
                !disjoint ==> !selects_frames(groups, count),
                groups == group_layers(layers@),
                set_views == frame_sets(groups, count),
            decreases sets@.len() - b,
        {
            if !lists_disjoint(&sets[a], &sets[b]) {
                disjoint = false;
                assert(!frames_disjoint(set_views[a as int], set_views[b as int]));
            }
            b = b + 1;
        }
        a = a + 1;
    }
    let mut reached = false;
    let mut sum: usize = 0;
    let mut k: usize = 0;
    assert(set_views.take(0) =~= Seq::<Seq<usize>>::empty());
    while k < sets.len() && !reached
        invariant
            k <= sets@.len(),
            set_views.len() == sets@.len(),
            forall|q: int| 0 <= q < sets@.len() ==> (#[trigger] sets@[q])@ == set_views[q],
            !reached ==> sum == total_len(set_views.take(k as int)) && sum < 2,
            reached ==> total_len(set_views) >= 2,
        decreases sets@.len() - k,
    {
        assert(set_views.take(k as int + 1).drop_last() =~= set_views.take(k as int));
        assert(set_views.take(k as int + 1).last() == set_views[k as int]);
        let len = sets[k].len();
        if len >= 2 - sum {
            reached = true;
            proof {
                lemma_total_len_prefix(set_views, k as int + 1);
            }
        } else {
            sum = sum + len;
        }
        k = k + 1;
    }
    if !reached {
        assert(set_views.take(sets@.len() as int) =~= set_views);
    }
    let selects = disjoint && reached;
    assert(selects == selects_frames(groups, count));
    let ghost level = level_entries(layers@, count, parent_id);
    let ghost start = info_views(selectors@);
    if selects {
        let mut k: usize = 0;
        assert(level.take(0) =~= Seq::<(u32, Option<u32>, Seq<usize>)>::empty());
        while k < sets.len()
            invariant
                k <= sets@.len(),
                selects_frames(groups, count),
                level == groups.map_values(|g: NormalizedLayer| (g.id, parent_id, active_frame_list(g, count))),
                level.len() == sets@.len(),
                ids@.len() == sets@.len(),
                forall|q: int| 0 <= q < sets@.len() ==> (#[trigger] sets@[q])@ == set_views[q],
                forall|q: int| 0 <= q < ids@.len() ==> #[trigger] ids@[q] == groups[q].id,
                set_views == frame_sets(groups, count),
                info_views(selectors@) == upsert_all(start, level.take(k as int)),
            decreases sets@.len() - k,
        {
            let frames = copy_frames(&sets[k]);
            let info = FrameContainerInfo { id: ids[k], parent_id, active_frames: frames };
            record_selector(selectors, info);
            proof {
                assert(info_view(info) == level[k as int]);
                assert(level.take(k as int + 1) =~= level.take(k as int).push(level[k as int]));
                lemma_upsert_all_push(start, level.take(k as int), level[k as int]);
            }
            k = k + 1;
        }
        assert(level.take(sets@.len() as int) =~= level);
    } else {
        assert(level =~= Seq::<(u32, Option<u32>, Seq<usize>)>::empty());
        assert(upsert_all(start, level) == start);
    }
    let ghost after_level = info_views(selectors@);
    let mut j: usize = 0;
    assert(layers@.subrange(0, layers@.len() as int) =~= layers@);
    while j < layers.len()
        invariant
            j <= layers@.len(),
            count == frame_count as int,
            upsert_all(after_level, nested_entries(layers@, count))
                == upsert_all(info_views(selectors@), nested_entries(layers@.subrange(j as int, layers@.len() as int), count)),
        decreases layers@.len() - j,
    {
        let ghost tail = layers@.subrange(j as int, layers@.len() as int);
        let ghost later = nested_entries(layers@.subrange(j as int + 1, layers@.len() as int), count);
        let ghost before = info_views(selectors@);
        proof {
            assert(tail[0] == layers@[j as int]);
            assert(tail.subrange(1, tail.len() as int) =~= layers@.subrange(j as int + 1, layers@.len() as int));
        }
        if layers[j].kind == NormalizedLayerKind::Group {
            proof {
                assert(decreases_to!(layers@ => layers@[j as int]));
                assert(decreases_to!(layers@[j as int] => layers@[j as int].children));
            }
            identify_selector_siblings(&layers[j].children, frame_count, Some(layers[j].id), selectors);
            proof {
                let head = selector_entries(layers@[j as int].children@, count, Some(layers@[j as int].id));
                assert(nested_entries(tail, count) == head + later);
                lemma_upsert_all_concat(before, head, later);
            }
        } else {
            proof {
                assert(nested_entries(tail, count) == Seq::<(u32, Option<u32>, Seq<usize>)>::empty() + later);
                assert(Seq::<(u32, Option<u32>, Seq<usize>)>::empty() + later =~= later);
            }
        }
        j = j + 1;
    }
    proof {
        assert(layers@.subrange(layers@.len() as int, layers@.len() as int) =~= Seq::<NormalizedLayer>::empty());
        lemma_upsert_all_concat(start, level, nested_entries(layers@, count));
    }
}

/// Finds the frame-selector groups of a layer tree.
pub fn find_frame_selector_groups(layers: &Vec<NormalizedLayer>, frame_count: usize) -> (selectors: Vec<FrameContainerInfo>)
    ensures
        info_views(selectors@) == upsert_all(Seq::empty(), selector_entries(layers@, frame_count as int, None)),
{
    let mut selectors: Vec<FrameContainerInfo> = Vec::new();
    assert(info_views(selectors@) =~= Seq::<(u32, Option<u32>, Seq<usize>)>::empty());
    identify_selector_siblings(layers, frame_count, None, &mut selectors);
    selectors
}

/// Frame-selector siblings never share a frame: any two entries one sibling list
/// contributes hold disjoint active frames.
pub proof fn lemma_level_entries_disjoint(layers: Seq<NormalizedLayer>, count: int, parent: Option<u32>)
    ensures
        forall|a: int, b: int| 0 <= a < b < level_entries(layers, count, parent).len() ==>
            #[trigger] frames_disjoint(level_entries(layers, count, parent)[a].2, level_entries(layers, count, parent)[b].2),
{
    let groups = group_layers(layers);
    if selects_frames(groups, count) {
        let sets = frame_sets(groups, count);
        let entries = level_entries(layers, count, parent);
        assert forall|a: int, b: int| 0 <= a < b < entries.len() implies #[trigger] frames_disjoint(entries[a].2, entries[b].2) by {
            assert(entries[a].2 == sets[a]);
            assert(entries[b].2 == sets[b]);
            assert(frames_disjoint(sets[a], sets[b]));
        }
    }
}

} // verus!
