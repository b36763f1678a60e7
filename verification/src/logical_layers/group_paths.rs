//! Persistent parent groups for logical tracks: the group path most of a track's
//! observations share, kept only where it is well supported and composites transparently.
use vstd::prelude::*;

use super::scoring::texts;
use super::{selector_from, FrameContainerInfo, GroupSegment, TrackBuilder};
use crate::model::{layer_with_id, NormalizedDocument, NormalizedLayer, NormalizedLayerKind};
use crate::text::decimal;

verus! {

/// The keys of a group path.
pub open spec fn key_list(path: Seq<GroupSegment>) -> Seq<Seq<char>> {
    path.map_values(|s: GroupSegment| s.key@)
}

/// Whether one byte string sorts before another, byte by byte, a prefix first.
pub open spec fn bytes_before(a: Seq<u8>, b: Seq<u8>) -> bool
    decreases a.len(),
{
    if a.len() == 0 {
        b.len() > 0
    } else if b.len() == 0 {
        false
    } else if a[0] != b[0] {
        a[0] < b[0]
    } else {
        bytes_before(a.drop_first(), b.drop_first())
    }
}

/// Whether one text sorts before another as `String` orders them: by their UTF-8 bytes.
pub open spec fn text_before(a: Seq<char>, b: Seq<char>) -> bool {
    bytes_before(vstd::utf8::encode_utf8(a), vstd::utf8::encode_utf8(b))
}

/// Whether one key list sorts before another, element by element, a prefix first.
pub open spec fn keys_before(a: Seq<Seq<char>>, b: Seq<Seq<char>>) -> bool
    decreases a.len(),
{
    if a.len() == 0 {
        b.len() > 0
    } else if b.len() == 0 {
        false
    } else if a[0] != b[0] {
        text_before(a[0], b[0])
    } else {
        keys_before(a.drop_first(), b.drop_first())
    }
}

/// How many of the paths have the given keys.
pub open spec fn support(paths: Seq<Vec<GroupSegment>>, keys: Seq<Seq<char>>) -> nat
    decreases paths.len(),
{
    if paths.len() == 0 {
        0
    } else {
        support(paths.drop_last(), keys) + if key_list(paths.last()@) == keys { 1nat } else { 0nat }
    }
}

/// Whether path `c` ranks above path `b`: its keys have more support, or as much and sort
/// first.
pub open spec fn outranks(paths: Seq<Vec<GroupSegment>>, c: int, b: int) -> bool {
    let kc = key_list(paths[c]@);
    let kb = key_list(paths[b]@);
    support(paths, kc) > support(paths, kb) || (support(paths, kc) == support(paths, kb) && keys_before(kc, kb))
}

/// The first of the first `n` paths whose keys rank highest.
pub open spec fn best_index(paths: Seq<Vec<GroupSegment>>, n: int) -> Option<int>
    decreases n,
{
    if n <= 0 {
        None
    } else {
        match best_index(paths, n - 1) {
            None => Some(n - 1),
            Some(b) => if outranks(paths, n - 1, b) { Some(n - 1) } else { Some(b) },
        }
    }
}

/// Whether other keys than those of path `b` have as much support.
pub open spec fn support_tied(paths: Seq<Vec<GroupSegment>>, b: int) -> bool {
    exists|j: int| 0 <= j < paths.len() && key_list((#[trigger] paths[j])@) != key_list(paths[b]@)
        && support(paths, key_list(paths[j]@)) == support(paths, key_list(paths[b]@))
}

/// Whether a group composites like no group: pass-through blending, or none declared, and
/// full opacity.
pub open spec fn composites_transparently(layer: NormalizedLayer) -> bool {
    (layer.blend_mode is None || layer.blend_mode->0@ == "pass through"@) && layer.full_opacity
}

/// The segments of a path whose group is found and composites transparently.
pub open spec fn kept_segments(layers: Seq<NormalizedLayer>, path: Seq<GroupSegment>) -> Seq<GroupSegment>
    decreases path.len(),
{
    if path.len() == 0 {
        Seq::empty()
    } else {
        let rest = kept_segments(layers, path.drop_last());
        match layer_with_id(layers, path.last().id) {
            Some(layer) => if composites_transparently(layer) { rest.push(path.last()) } else { rest },
            None => rest,
        }
    }
}

/// The warning for a group that does not composite transparently.
pub open spec fn opaque_group_text(id: u32) -> Seq<char> {
    "group "@ + decimal(id as int) + " was flattened because its compositing attributes are not transparent"@
}

/// The warnings for the found groups of a path that do not composite transparently.
pub open spec fn segment_warnings(layers: Seq<NormalizedLayer>, path: Seq<GroupSegment>) -> Seq<Seq<char>>
    decreases path.len(),
{
    if path.len() == 0 {
        Seq::empty()
    } else {
        let rest = segment_warnings(layers, path.drop_last());
        match layer_with_id(layers, path.last().id) {
            Some(layer) => if composites_transparently(layer) { rest } else { rest.push(opaque_group_text(layer.id)) },
            None => rest,
        }
    }
}

/// The warning for a track whose leading paths have equal support.
pub open spec fn equal_support_text(track: usize) -> Seq<char> {
    "track "@ + decimal(track as int) + " was flattened because persistent parent groups have equal support"@
}

/// The warning for a track whose leading path has too little of its support.
pub open spec fn weak_support_text(track: usize) -> Seq<char> {
    "track "@ + decimal(track as int) + " was flattened because its persistent parent support is below 80%"@
}

/// The warning for a track whose kept path is nested.
pub open spec fn nested_path_text(track: usize) -> Seq<char> {
    "nested group path for track "@ + decimal(track as int) + " was flattened to preserve cross-layer z-order"@
}

/// The warnings of choosing the group paths of the tracks, track by track.
pub open spec fn track_warnings(tracks: Seq<TrackBuilder>, layers: Seq<NormalizedLayer>, frame_count: int) -> Seq<Seq<char>>
    decreases tracks.len(),
{
    if tracks.len() == 0 {
        Seq::empty()
    } else {
        track_warnings(tracks.drop_last(), layers, frame_count) + chosen_group_path(tracks.last(), layers, frame_count).1
    }
}

/// The fewest frames a group path must hold in: two thirds of the frames, rounded up.
pub open spec fn minimum_support(frame_count: int) -> int {
    (frame_count * 2 + 2) / 3
}

/// The fewest of its own observations a group path must hold: four fifths, rounded up.
pub open spec fn minimum_member_support(count: int) -> int {
    (count * 4 + 4) / 5
}

/// The group path chosen for a track, and the warnings choosing it leaves. The leading
/// path is the best supported, ties by key order; it is dropped if fewer frames than two
/// thirds hold it, if other keys have as much support, or if fewer than four fifths of the
/// track's observations hold it. Of the leading path only the groups that composite
/// transparently remain, and of those only the outermost.
pub open spec fn chosen_group_path(track: TrackBuilder, layers: Seq<NormalizedLayer>, frame_count: int) -> (Seq<GroupSegment>, Seq<Seq<char>>) {
    let paths = track.group_paths@;
    match best_index(paths, paths.len() as int) {
        None => (Seq::empty(), Seq::empty()),
        Some(b) => {
            let count = support(paths, key_list(paths[b]@));
            if count < minimum_support(frame_count) {
                (Seq::empty(), Seq::empty())
            } else if support_tied(paths, b) {
                (Seq::empty(), seq![equal_support_text(track.id)])
            } else if count < minimum_member_support(paths.len() as int) {
                (Seq::empty(), seq![weak_support_text(track.id)])
            } else {
                let kept = kept_segments(layers, paths[b]@);
                let warned = segment_warnings(layers, paths[b]@);
                (
                    kept.take(if kept.len() > 0 { 1 } else { 0 }),
                    if kept.len() > 1 { warned.push(nested_path_text(track.id)) } else { warned },
                )
            }
        },
    }
}

/// Whether one text sorts before another as `String` orders them.
pub(crate) fn text_precedes(a: &String, b: &String) -> (before: bool)
    ensures
        before == text_before(a@, b@),
{
    let left = a.as_str().as_bytes();
    let right = b.as_str().as_bytes();
    let ghost l = left@;
    let ghost r = right@;
    let mut i: usize = 0;
    assert(l.subrange(0, l.len() as int) =~= l);
    assert(r.subrange(0, r.len() as int) =~= r);
    while i < left.len() && i < right.len()
        invariant
            l == left@,
            r == right@,
            l == vstd::utf8::encode_utf8(a@),
            r == vstd::utf8::encode_utf8(b@),
            i <= l.len(),
            i <= r.len(),
            text_before(a@, b@) == bytes_before(l.subrange(i as int, l.len() as int), r.subrange(i as int, r.len() as int)),
        decreases l.len() - i,
    {
        let ghost ls = l.subrange(i as int, l.len() as int);
        let ghost rs = r.subrange(i as int, r.len() as int);
        assert(ls[0] == l[i as int]);
        assert(rs[0] == r[i as int]);
        if left[i] != right[i] {
            return left[i] < right[i];
        }
        assert(ls.drop_first() =~= l.subrange(i as int + 1, l.len() as int));
        assert(rs.drop_first() =~= r.subrange(i as int + 1, r.len() as int));
        i = i + 1;
    }
    i == left.len() && i < right.len()
}

/// Whether the keys of one path sort before those of another.
fn keys_precede(a: &Vec<GroupSegment>, b: &Vec<GroupSegment>) -> (before: bool)
    ensures
        before == keys_before(key_list(a@), key_list(b@)),
{
    let ghost ka = key_list(a@);
    let ghost kb = key_list(b@);
    let mut i: usize = 0;
    assert(ka.subrange(0, ka.len() as int) =~= ka);
    assert(kb.subrange(0, kb.len() as int) =~= kb);
    while i < a.len() && i < b.len()
        invariant
            ka == key_list(a@),
            kb == key_list(b@),
            i <= a@.len(),
            i <= b@.len(),
            keys_before(ka, kb) == keys_before(ka.subrange(i as int, ka.len() as int), kb.subrange(i as int, kb.len() as int)),
        decreases a@.len() - i,
    {
        let ghost xs = ka.subrange(i as int, ka.len() as int);
        let ghost ys = kb.subrange(i as int, kb.len() as int);
        assert(xs[0] == a@[i as int].key@);
        assert(ys[0] == b@[i as int].key@);
        if a[i].key != b[i].key {
            return text_precedes(&a[i].key, &b[i].key);
        }
        assert(xs.drop_first() =~= ka.subrange(i as int + 1, ka.len() as int));
        assert(ys.drop_first() =~= kb.subrange(i as int + 1, kb.len() as int));
        i = i + 1;
    }
    i == a.len() && i < b.len()
}

/// Whether two paths have the same keys.
fn same_keys(a: &Vec<GroupSegment>, b: &Vec<GroupSegment>) -> (same: bool)
    ensures
        same == (key_list(a@) == key_list(b@)),
{
    if a.len() != b.len() {
        assert(key_list(a@).len() != key_list(b@).len());
        return false;
    }
    let mut i: usize = 0;
    while i < a.len()
        invariant
            a@.len() == b@.len(),
            i <= a@.len(),
            forall|k: int| 0 <= k < i ==> #[trigger] a@[k].key@ == b@[k].key@,
        decreases a@.len() - i,
    {
        if a[i].key != b[i].key {
            assert(key_list(a@)[i as int] != key_list(b@)[i as int]);
            return false;
        }
        i = i + 1;
    }
    assert(key_list(a@) =~= key_list(b@));
    true
}

/// How many paths have the keys of path `j`.
fn path_support(paths: &Vec<Vec<GroupSegment>>, j: usize) -> (count: usize)
    requires
        j < paths@.len(),
    ensures
        count == support(paths@, key_list(paths@[j as int]@)),
{
    let ghost keys = key_list(paths@[j as int]@);
    let mut count: usize = 0;
    let mut i: usize = 0;
    assert(paths@.take(0) =~= Seq::<Vec<GroupSegment>>::empty());
    while i < paths.len()
        invariant
            j < paths@.len(),
            keys == key_list(paths@[j as int]@),
            i <= paths@.len(),
            count == support(paths@.take(i as int), keys),
            count <= i,
        decreases paths@.len() - i,
    {
        assert(paths@.take(i as int + 1).drop_last() =~= paths@.take(i as int));
        assert(paths@.take(i as int + 1).last() == paths@[i as int]);
        if same_keys(&paths[i], &paths[j]) {
            count = count + 1;
        }
        i = i + 1;
    }
    assert(paths@.take(paths@.len() as int) =~= paths@);
    count
}

proof fn lemma_best_index_bounded(paths: Seq<Vec<GroupSegment>>, n: int)
    requires
        0 <= n <= paths.len(),
    ensures
        n > 0 ==> (best_index(paths, n) matches Some(b) && 0 <= b < n),
        n == 0 ==> best_index(paths, n) is None,
    decreases n,
{
    if n > 0 {
        lemma_best_index_bounded(paths, n - 1);
    }
}

/// Whether a group composites transparently.
fn transparent_group(layer: &NormalizedLayer) -> (transparent: bool)
    ensures
        transparent == composites_transparently(*layer),
{
    let pass = "pass through".to_string();
    proof {
        vstd::string::to_string_from_display_ensures_for_str("pass through", pass);
    }
    let blend_ok = match &layer.blend_mode {
        None => true,
        Some(mode) => *mode == pass,
    };
    blend_ok && layer.full_opacity
}

#[verifier::external_body]
fn opaque_group_warning(id: u32) -> (message: String)
    ensures
        message@ == opaque_group_text(id),
{
    format!("group {} was flattened because its compositing attributes are not transparent", id)
}

#[verifier::external_body]
fn equal_support_warning(track: usize) -> (message: String)
    ensures
        message@ == equal_support_text(track),
{
    format!("track {} was flattened because persistent parent groups have equal support", track)
}

#[verifier::external_body]
fn weak_support_warning(track: usize) -> (message: String)
    ensures
        message@ == weak_support_text(track),
{
    format!("track {} was flattened because its persistent parent support is below 80%", track)
}

#[verifier::external_body]
fn nested_path_warning(track: usize) -> (message: String)
    ensures
        message@ == nested_path_text(track),
{
    format!("nested group path for track {} was flattened to preserve cross-layer z-order", track)
}

fn copy_segment(segment: &GroupSegment) -> (copy: GroupSegment)
    ensures
        copy == *segment,
{
    GroupSegment { id: segment.id, name: segment.name.clone(), key: segment.key.clone() }
}

/// Chooses the persistent parent group of one track, adding the warnings it leaves.
pub fn choose_group_path(track: &TrackBuilder, document: &NormalizedDocument, warnings: &mut Vec<String>) -> (path: Vec<GroupSegment>)
    ensures
        path@ == chosen_group_path(*track, document.root_layers@, document.frames@.len() as int).0,
        texts(final(warnings)@) == texts(old(warnings)@) + chosen_group_path(*track, document.root_layers@, document.frames@.len() as int).1,
{
    let paths = &track.group_paths;
    let ghost layers = document.root_layers@;
    let ghost chosen = chosen_group_path(*track, layers, document.frames@.len() as int);
    let ghost start = texts(warnings@);
    if paths.len() == 0 {
        assert(texts(warnings@) + Seq::<Seq<char>>::empty() =~= texts(warnings@));
        return Vec::new();
    }
    let mut best: usize = 0;
    let mut best_count: usize = path_support(paths, 0);
    let mut i: usize = 1;
    assert(best_index(paths@, 0) is None);
    assert(best_index(paths@, 1) == Some(0int));
    while i < paths.len()
        invariant
            1 <= i <= paths@.len(),
            best < i,
            best_index(paths@, i as int) == Some(best as int),
            best_count == support(paths@, key_list(paths@[best as int]@)),
        decreases paths@.len() - i,
    {
        let count = path_support(paths, i);
        let better = count > best_count || (count == best_count && keys_precede(&paths[i], &paths[best]));
        assert(better == outranks(paths@, i as int, best as int));
        if better {
            best = i;
            best_count = count;
        }
        i = i + 1;
    }
    let frame_count = document.frames.len() as u128;
    if (best_count as u128) < (frame_count * 2 + 2) / 3 {
        assert(texts(warnings@) + Seq::<Seq<char>>::empty() =~= texts(warnings@));
        return Vec::new();
    }
    let mut tied = false;
    let mut j: usize = 0;
    while j < paths.len() && !tied
        invariant
            j <= paths@.len(),
            best < paths@.len(),
            best_count == support(paths@, key_list(paths@[best as int]@)),
            tied ==> support_tied(paths@, best as int),
            !tied ==> forall|q: int| 0 <= q < j ==> !(key_list((#[trigger] paths@[q])@) != key_list(paths@[best as int]@)
                && support(paths@, key_list(paths@[q]@)) == support(paths@, key_list(paths@[best as int]@))),
        decreases paths@.len() - j,
    {
        if !same_keys(&paths[j], &paths[best]) && path_support(paths, j) == best_count {
            tied = true;
        }
        j = j + 1;
    }
    if tied {
        warnings.push(equal_support_warning(track.id));
        assert(texts(warnings@) =~= start + seq![equal_support_text(track.id)]);
        return Vec::new();
    }
    if (best_count as u128) < (paths.len() as u128 * 4 + 4) / 5 {
        warnings.push(weak_support_warning(track.id));
        assert(texts(warnings@) =~= start + seq![weak_support_text(track.id)]);
        return Vec::new();
    }
    let representative = &paths[best];
    let ghost rep = representative@;
    let mut kept: Vec<GroupSegment> = Vec::new();
    let mut k: usize = 0;
    assert(rep.take(0) =~= Seq::<GroupSegment>::empty());
    assert(texts(warnings@) + Seq::<Seq<char>>::empty() =~= texts(warnings@));
    while k < representative.len()
        invariant
            rep == representative@,
            layers == document.root_layers@,
            k <= rep.len(),
            kept@ == kept_segments(layers, rep.take(k as int)),
            texts(warnings@) == start + segment_warnings(layers, rep.take(k as int)),
        decreases rep.len() - k,
    {
        assert(rep.take(k as int + 1).drop_last() =~= rep.take(k as int));
        assert(rep.take(k as int + 1).last() == rep[k as int]);
        let segment = &representative[k];
        match document.find_layer(segment.id) {
            Some(layer) => {
                if transparent_group(layer) {
                    kept.push(copy_segment(segment));
                } else {
                    let ghost before = texts(warnings@);
                    warnings.push(opaque_group_warning(layer.id));
                    assert(texts(warnings@) =~= before.push(opaque_group_text(layer.id)));
                }
            },
            None => {},
        }
        k = k + 1;
    }
    assert(rep.take(rep.len() as int) =~= rep);
    if kept.len() > 1 {
        let ghost before = texts(warnings@);
        warnings.push(nested_path_warning(track.id));
        assert(texts(warnings@) =~= before.push(nested_path_text(track.id)));
        assert(start + segment_warnings(layers, rep).push(nested_path_text(track.id)) =~= before.push(nested_path_text(track.id)));
    }
    let mut path: Vec<GroupSegment> = Vec::new();
    if kept.len() > 0 {
        path.push(copy_segment(&kept[0]));
    }
    assert(path@ =~= kept@.take(if kept@.len() > 0 { 1 } else { 0 }));
    path
}

/// Chooses the persistent parent group of every track, in track order.
pub fn choose_group_paths(tracks: &Vec<TrackBuilder>, document: &NormalizedDocument, warnings: &mut Vec<String>) -> (paths: Vec<Vec<GroupSegment>>)
    ensures
        paths@.len() == tracks@.len(),
        forall|t: int| 0 <= t < tracks@.len() ==> (#[trigger] paths@[t])@ == chosen_group_path(tracks@[t], document.root_layers@, document.frames@.len() as int).0,
        texts(final(warnings)@) == texts(old(warnings)@) + track_warnings(tracks@, document.root_layers@, document.frames@.len() as int),
{
    let mut paths: Vec<Vec<GroupSegment>> = Vec::new();
    let ghost start = texts(warnings@);
    let ghost layers = document.root_layers@;
    let ghost count = document.frames@.len() as int;
    let mut t: usize = 0;
    assert(tracks@.take(0) =~= Seq::<TrackBuilder>::empty());
    assert(start + Seq::<Seq<char>>::empty() =~= start);
    while t < tracks.len()
        invariant
            t <= tracks@.len(),
            layers == document.root_layers@,
            count == document.frames@.len() as int,
            paths@.len() == t,
            forall|q: int| 0 <= q < t ==> (#[trigger] paths@[q])@ == chosen_group_path(tracks@[q], layers, count).0,
            texts(warnings@) == start + track_warnings(tracks@.take(t as int), layers, count),
        decreases tracks@.len() - t,
    {
        let ghost before = texts(warnings@);
        let path = choose_group_path(&tracks[t], document, warnings);
        paths.push(path);
        proof {
            assert(tracks@.take(t as int + 1).drop_last() =~= tracks@.take(t as int));
            assert(tracks@.take(t as int + 1).last() == tracks@[t as int]);
            let w = chosen_group_path(tracks@[t as int], layers, count).1;
            assert(start + (track_warnings(tracks@.take(t as int), layers, count) + w) =~= before + w);
        }
        t = t + 1;
    }
    assert(tracks@.take(tracks@.len() as int) =~= tracks@);
    paths
}

/// Whether every child of a group is a frame selector.
pub open spec fn only_selector_children(layer: NormalizedLayer, selectors: Seq<FrameContainerInfo>) -> bool {
    forall|i: int| 0 <= i < layer.children@.len() ==> selector_from(selectors, (#[trigger] layer.children@[i]).id, 0) is Some
}

/// Whether every child of a group is a pixel layer.
pub open spec fn only_pixel_children(layer: NormalizedLayer) -> bool {
    forall|i: int| 0 <= i < layer.children@.len() ==> (#[trigger] layer.children@[i]).kind == NormalizedLayerKind::Pixel
}

/// Whether one of a track's group paths opens with a group of the given key.
pub open spec fn opens_with(track: TrackBuilder, key: Seq<char>) -> bool {
    exists|j: int| 0 <= j < track.group_paths@.len() && (#[trigger] track.group_paths@[j])@.len() > 0
        && track.group_paths@[j]@[0].key@ == key
}

/// Whether the chosen paths all open with one group that only wraps: every path opens with
/// a group of the first path's first key, that group composites transparently, has
/// children that are all frame selectors or all pixel layers, and every track has some
/// observation under a group of that key.
pub open spec fn wraps_everything(paths: Seq<Vec<GroupSegment>>, tracks: Seq<TrackBuilder>, layers: Seq<NormalizedLayer>, selectors: Seq<FrameContainerInfo>) -> bool {
    &&& paths.len() > 0
    &&& forall|i: int| 0 <= i < paths.len() ==> (#[trigger] paths[i])@.len() > 0
    &&& forall|i: int| 0 <= i < paths.len() ==> (#[trigger] paths[i])@[0].key@ == paths[0]@[0].key@
    &&& match layer_with_id(layers, paths[0]@[0].id) {
        Some(layer) => {
            &&& composites_transparently(layer)
            &&& layer.children@.len() > 0
            &&& (only_selector_children(layer, selectors) || only_pixel_children(layer))
            &&& forall|t: int| 0 <= t < tracks.len() ==> opens_with(#[trigger] tracks[t], paths[0]@[0].key@)
        },
        None => false,
    }
}

/// The warning for a flattened wrapper group.
pub open spec fn wrapper_text(name: Seq<char>) -> Seq<char> {
    "common wrapper group "@ + name + " was flattened from the auto output"@
}

#[verifier::external_body]
fn wrapper_warning(name: &String) -> (message: String)
    ensures
        message@ == wrapper_text(name@),
{
    format!("common wrapper group {} was flattened from the auto output", name)
}

fn is_selector(selectors: &Vec<FrameContainerInfo>, id: u32) -> (found: bool)
    ensures
        found == (selector_from(selectors@, id, 0) is Some),
{
    let mut i: usize = 0;
    while i < selectors.len()
        invariant
            i <= selectors@.len(),
            selector_from(selectors@, id, 0) == selector_from(selectors@, id, i as int),
        decreases selectors@.len() - i,
    {
        if selectors[i].id == id {
            return true;
        }
        i = i + 1;
    }
    false
}

fn track_opens_with(track: &TrackBuilder, key: &String) -> (found: bool)
    ensures
        found == opens_with(*track, key@),
{
    let mut j: usize = 0;
    while j < track.group_paths.len()
        invariant
            j <= track.group_paths@.len(),
            forall|q: int| 0 <= q < j ==> !((#[trigger] track.group_paths@[q])@.len() > 0 && track.group_paths@[q]@[0].key@ == key@),
        decreases track.group_paths@.len() - j,
    {
        let path = &track.group_paths[j];
        if path.len() > 0 && path[0].key == *key {
            return true;
        }
        j = j + 1;
    }
    false
}

/// Removes a semantically empty group shared by every planned track: when the paths all
/// open with one group that only wraps, that group leaves every path, with a warning.
pub fn flatten_redundant_common_root(
    group_paths: &mut Vec<Vec<GroupSegment>>,
    tracks: &Vec<TrackBuilder>,
    document: &NormalizedDocument,
    selectors: &Vec<FrameContainerInfo>,
    warnings: &mut Vec<String>,
)
    ensures
        final(group_paths)@.len() == old(group_paths)@.len(),
        wraps_everything(old(group_paths)@, tracks@, document.root_layers@, selectors@) ==> {
            &&& forall|i: int| 0 <= i < old(group_paths)@.len() ==> (#[trigger] final(group_paths)@[i])@ == old(group_paths)@[i]@.drop_first()
            &&& texts(final(warnings)@) == texts(old(warnings)@).push(wrapper_text(old(group_paths)@[0]@[0].name@))
        },
        !wraps_everything(old(group_paths)@, tracks@, document.root_layers@, selectors@) ==> {
            &&& final(group_paths)@ == old(group_paths)@
            &&& final(warnings)@ == old(warnings)@
        },
{
    let ghost before = group_paths@;
    let ghost layers = document.root_layers@;
    if group_paths.len() == 0 {
        return;
    }
    let mut i: usize = 0;
    while i < group_paths.len()
        invariant
            i <= group_paths@.len(),
            forall|q: int| 0 <= q < i ==> (#[trigger] group_paths@[q])@.len() > 0,
        decreases group_paths@.len() - i,
    {
        if group_paths[i].len() == 0 {
            return;
        }
        i = i + 1;
    }
    let common_key = group_paths[0][0].key.clone();
    let common_name = group_paths[0][0].name.clone();
    let common_id = group_paths[0][0].id;
    let mut i: usize = 0;
    while i < group_paths.len()
        invariant
            i <= group_paths@.len(),
            group_paths@.len() > 0,
            group_paths@[0]@.len() > 0,
            common_key@ == group_paths@[0]@[0].key@,
            forall|q: int| 0 <= q < group_paths@.len() ==> (#[trigger] group_paths@[q])@.len() > 0,
            forall|q: int| 0 <= q < i ==> (#[trigger] group_paths@[q])@[0].key@ == common_key@,
        decreases group_paths@.len() - i,
    {
        if group_paths[i][0].key != common_key {
            return;
        }
        i = i + 1;
    }
    let layer = match document.find_layer(common_id) {
        Some(layer) => layer,
        None => {
            return;
        },
    };
    let transparent = transparent_group(layer);
    let mut only_selectors = layer.children.len() > 0;
    let mut only_pixels = layer.children.len() > 0;
    let mut c: usize = 0;
    while c < layer.children.len()
        invariant
            c <= layer.children@.len(),
            only_selectors ==> forall|q: int| 0 <= q < c ==> selector_from(selectors@, (#[trigger] layer.children@[q]).id, 0) is Some,
            !only_selectors ==> !(layer.children@.len() > 0 && only_selector_children(*layer, selectors@)),
            only_pixels ==> forall|q: int| 0 <= q < c ==> (#[trigger] layer.children@[q]).kind == NormalizedLayerKind::Pixel,
            !only_pixels ==> !(layer.children@.len() > 0 && only_pixel_children(*layer)),
            only_selectors || only_pixels ==> layer.children@.len() > 0,
        decreases layer.children@.len() - c,
    {
        if !is_selector(selectors, layer.children[c].id) {
            only_selectors = false;
        }
        if layer.children[c].kind != NormalizedLayerKind::Pixel {
            only_pixels = false;
        }
        c = c + 1;
    }
    let mut covered = true;
    let mut t: usize = 0;
    while t < tracks.len() && covered
        invariant
            t <= tracks@.len(),
            covered ==> forall|q: int| 0 <= q < t ==> opens_with(#[trigger] tracks@[q], common_key@),
            !covered ==> exists|q: int| 0 <= q < tracks@.len() && !opens_with(#[trigger] tracks@[q], common_key@),
        decreases tracks@.len() - t,
    {
        if !track_opens_with(&tracks[t], &common_key) {
            covered = false;
        }
        t = t + 1;
    }
    let flatten = transparent && covered && (only_selectors || only_pixels);
    assert(flatten == wraps_everything(before, tracks@, layers, selectors@));
    if flatten {
        let mut i: usize = 0;
        while i < group_paths.len()
            invariant
                i <= group_paths@.len(),
                group_paths@.len() == before.len(),
                forall|q: int| 0 <= q < before.len() ==> (#[trigger] before[q])@.len() > 0,
                forall|q: int| 0 <= q < i ==> (#[trigger] group_paths@[q])@ == before[q]@.drop_first(),
                forall|q: int| i <= q < before.len() ==> #[trigger] group_paths@[q] == before[q],
            decreases group_paths@.len() - i,
        {
            let path = &mut group_paths[i];
            path.remove(0);
            assert(path@ =~= before[i as int]@.drop_first());
            i = i + 1;
        }
        let ghost previous = texts(warnings@);
        warnings.push(wrapper_warning(&common_name));
        assert(texts(warnings@) =~= previous.push(wrapper_text(common_name@)));
    }
}

} // verus!
