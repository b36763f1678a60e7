//! Enumeration of the one-to-one assignments of observations to candidate tracks.
use vstd::prelude::*;

verus! {

/// The candidate tracks of observation `observation`, in candidate order; none for an
/// observation without a list.
pub open spec fn candidate_list(candidates: Seq<Seq<(usize, u16)>>, observation: usize) -> Seq<(usize, u16)> {
    if observation < candidates.len() {
        candidates[observation as int]
    } else {
        Seq::empty()
    }
}

/// Every complete assignment of the observations from `position` on, each to one of its
/// candidate tracks that no other observation uses, extending `current`; in the order of
/// a depth-first search that tries the candidates of each observation in turn.
pub open spec fn matchings(
    observations: Seq<usize>,
    candidates: Seq<Seq<(usize, u16)>>,
    position: int,
    used: Seq<usize>,
    current: Seq<(usize, usize)>,
) -> Seq<Seq<(usize, usize)>>
    decreases observations.len() - position, candidate_list(candidates, observations[position]).len() + 1,
{
    if position < 0 || position >= observations.len() {
        seq![current]
    } else {
        matchings_from(observations, candidates, position, used, current, 0)
    }
}

/// The assignments of [`matchings`] whose observation at `position` takes its `j`-th or a
/// later candidate.
pub open spec fn matchings_from(
    observations: Seq<usize>,
    candidates: Seq<Seq<(usize, u16)>>,
    position: int,
    used: Seq<usize>,
    current: Seq<(usize, usize)>,
    j: int,
) -> Seq<Seq<(usize, usize)>>
    decreases observations.len() - position, candidate_list(candidates, observations[position]).len() - j,
{
    let list = candidate_list(candidates, observations[position]);
    if position < 0 || position >= observations.len() || j < 0 || j >= list.len() {
        Seq::empty()
    } else {
        let track = list[j].0;
        let here = if used.contains(track) {
            Seq::empty()
        } else {
            matchings(observations, candidates, position + 1, used.push(track), current.push((observations[position], track)))
        };
        here + matchings_from(observations, candidates, position, used, current, j + 1)
    }
}

/// The assignments that take one of the first `j` candidates at `position`.
pub open spec fn matchings_before(
    observations: Seq<usize>,
    candidates: Seq<Seq<(usize, u16)>>,
    position: int,
    used: Seq<usize>,
    current: Seq<(usize, usize)>,
    j: int,
) -> Seq<Seq<(usize, usize)>>
    decreases j,
{
    if j <= 0 {
        Seq::empty()
    } else {
        let list = candidate_list(candidates, observations[position]);
        let track = list[j - 1].0;
        let here = if used.contains(track) {
            Seq::empty()
        } else {
            matchings(observations, candidates, position + 1, used.push(track), current.push((observations[position], track)))
        };
        matchings_before(observations, candidates, position, used, current, j - 1) + here
    }
}

proof fn lemma_matchings_split(
    observations: Seq<usize>,
    candidates: Seq<Seq<(usize, u16)>>,
    position: int,
    used: Seq<usize>,
    current: Seq<(usize, usize)>,
    j: int,
)
    requires
        0 <= position < observations.len(),
        0 <= j <= candidate_list(candidates, observations[position]).len(),
    ensures
        matchings_from(observations, candidates, position, used, current, 0)
            == matchings_before(observations, candidates, position, used, current, j)
                + matchings_from(observations, candidates, position, used, current, j),
    decreases j,
{
    if j > 0 {
        lemma_matchings_split(observations, candidates, position, used, current, j - 1);
        let a = matchings_before(observations, candidates, position, used, current, j - 1);
        let b = matchings_from(observations, candidates, position, used, current, j - 1);
        let c = matchings_from(observations, candidates, position, used, current, j);
        let list = candidate_list(candidates, observations[position]);
        let track = list[j - 1].0;
        let here = if used.contains(track) {
            Seq::<Seq<(usize, usize)>>::empty()
        } else {
            matchings(observations, candidates, position + 1, used.push(track), current.push((observations[position], track)))
        };
        assert(b == here + c);
        assert(a + b == (a + here) + c);
    } else {
        assert(matchings_before(observations, candidates, position, used, current, 0) + matchings_from(observations, candidates, position, used, current, 0)
            =~= matchings_from(observations, candidates, position, used, current, 0));
    }
}

/// `found` extended by the first elements of `more`, up to `limit` elements in all; `found`
/// itself where it already holds `limit`.
pub open spec fn fill<A>(found: Seq<A>, more: Seq<A>, limit: int) -> Seq<A> {
    if found.len() >= limit {
        found
    } else if more.len() <= limit - found.len() {
        found + more
    } else {
        found + more.take(limit - found.len())
    }
}

proof fn lemma_fill_twice<A>(found: Seq<A>, a: Seq<A>, b: Seq<A>, limit: int)
    ensures
        fill(fill(found, a, limit), b, limit) == fill(found, a + b, limit),
{
    if found.len() >= limit {
    } else if a.len() <= limit - found.len() {
        assert(found + a + b =~= found + (a + b));
        if b.len() <= limit - found.len() - a.len() {
        } else {
            assert((found + a) + b.take(limit - found.len() - a.len()) =~= found + (a + b).take(limit - found.len()));
        }
    } else {
        assert((found + a.take(limit - found.len())).len() == limit);
        assert((a + b).take(limit - found.len()) =~= a.take(limit - found.len()));
    }
}

proof fn lemma_fill_empty<A>(found: Seq<A>, limit: int)
    ensures
        fill(found, Seq::<A>::empty(), limit) == found,
{
    assert(found + Seq::<A>::empty() =~= found);
}

/// The views of a list of vectors.
pub open spec fn views<T>(vectors: Seq<Vec<T>>) -> Seq<Seq<T>> {
    vectors.map_values(|v: Vec<T>| v@)
}

fn copy_pairs(source: &Vec<(usize, usize)>) -> (copy: Vec<(usize, usize)>)
    ensures
        copy@ == source@,
{
    let mut copy: Vec<(usize, usize)> = Vec::new();
    let mut i: usize = 0;
    while i < source.len()
        invariant
            i <= source@.len(),
            copy@ == source@.take(i as int),
        decreases source@.len() - i,
    {
        copy.push(source[i]);
        assert(source@.take(i as int + 1) == source@.take(i as int).push(source@[i as int]));
        i = i + 1;
    }
    assert(source@.take(i as int) == source@);
    copy
}

fn contains_id(ids: &Vec<usize>, id: usize) -> (found: bool)
    ensures
        found == ids@.contains(id),
{
    let mut i: usize = 0;
    while i < ids.len()
        invariant
            i <= ids@.len(),
            forall|k: int| 0 <= k < i ==> ids@[k] != id,
        decreases ids@.len() - i,
    {
        if ids[i] == id {
            assert(ids@[i as int] == id);
            return true;
        }
        i = i + 1;
    }
    false
}

fn visit_unique(
    position: usize,
    observations: &Vec<usize>,
    candidates: &Vec<Vec<(usize, u16)>>,
    used: &mut Vec<usize>,
    current: &mut Vec<(usize, usize)>,
    solutions: &mut Vec<Vec<(usize, usize)>>,
    limit: usize,
)
    requires
        position <= observations@.len(),
    ensures
        final(used)@ == old(used)@,
        final(current)@ == old(current)@,
        views(final(solutions)@) == fill(
            views(old(solutions)@),
            matchings(observations@, views(candidates@), position as int, old(used)@, old(current)@),
            limit as int,
        ),
    decreases observations@.len() - position,
{
    let ghost cands = views(candidates@);
    let ghost start = views(solutions@);
    if solutions.len() >= limit {
        return;
    }
    if position == observations.len() {
        let copy = copy_pairs(current);
        solutions.push(copy);
        proof {
            assert(views(solutions@) =~= start.push(current@));
            assert(start + seq![current@] =~= start.push(current@));
        }
        return;
    }
    let observation = observations[position];
    let ghost list = candidate_list(cands, observation);
    if observation >= candidates.len() {
        proof {
            assert(matchings_from(observations@, cands, position as int, used@, current@, 0) =~= Seq::empty());
            lemma_fill_empty(start, limit as int);
        }
        return;
    }
    let edges = &candidates[observation];
    assert(edges@ == list);
    let ghost used0 = used@;
    let ghost current0 = current@;
    let count = observations.len();
    let mut j: usize = 0;
    while j < edges.len()
        invariant
            count == observations@.len(),
            position < count,
            observation == observations@[position as int],
            cands == views(candidates@),
            list == candidate_list(cands, observation),
            edges@ == list,
            j <= list.len(),
            used@ == used0,
            current@ == current0,
            views(solutions@) == fill(start, matchings_before(observations@, cands, position as int, used0, current0, j as int), limit as int),
        decreases list.len() - j,
    {
        let track = edges[j].0;
        let ghost before = views(solutions@);
        if !contains_id(used, track) {
            used.push(track);
            current.push((observation, track));
            visit_unique(position + 1, observations, candidates, used, current, solutions, limit);
            used.pop();
            current.pop();
            proof {
                assert(used@ =~= used0);
                assert(current@ =~= current0);
            }
        }
        proof {
            let here = if used0.contains(track) {
                Seq::<Seq<(usize, usize)>>::empty()
            } else {
                matchings(observations@, cands, position + 1, used0.push(track), current0.push((observation, track)))
            };
            if used0.contains(track) {
                lemma_fill_empty(before, limit as int);
            }
            lemma_fill_twice(start, matchings_before(observations@, cands, position as int, used0, current0, j as int), here, limit as int);
        }
        j = j + 1;
    }
    proof {
        lemma_matchings_split(observations@, cands, position as int, used0, current0, j as int);
        assert(matchings_from(observations@, cands, position as int, used0, current0, j as int) =~= Seq::empty());
        assert(matchings_before(observations@, cands, position as int, used0, current0, j as int) + Seq::empty()
            =~= matchings_before(observations@, cands, position as int, used0, current0, j as int));
    }
}

/// Lists up to `limit` complete one-to-one assignments of the observations to their
/// candidate tracks, in depth-first order over the candidate lists. `candidates[o]` lists
/// the candidate tracks of observation `o`, and a pair `(o, t)` of a solution gives
/// observation `o` track `t`.
pub fn find_unique_matchings(
    observations: &Vec<usize>,
    candidates: &Vec<Vec<(usize, u16)>>,
    limit: usize,
) -> (solutions: Vec<Vec<(usize, usize)>>)
    ensures
        views(solutions@) == fill(
            Seq::<Seq<(usize, usize)>>::empty(),
            matchings(observations@, views(candidates@), 0, Seq::empty(), Seq::empty()),
            limit as int,
        ),
{
    let mut solutions: Vec<Vec<(usize, usize)>> = Vec::new();
    let mut used: Vec<usize> = Vec::new();
    let mut current: Vec<(usize, usize)> = Vec::new();
    assert(views(solutions@) =~= Seq::<Seq<(usize, usize)>>::empty());
    visit_unique(0, observations, candidates, &mut used, &mut current, &mut solutions, limit);
    solutions
}

/// Points a family assignment earns for each observation it places, on top of the
/// candidate score.
pub const FAMILY_MATCH_ASSIGNMENT_BONUS: u64 = 100;

/// The number of search states after which the family search stops looking.
pub const MAX_FAMILY_MATCHING_STATES: usize = 100_000;

/// The state of the family search: the best total score so far, the assignments that
/// reach it, and the number of states visited.
pub type FamilySearch = (Option<int>, Seq<Seq<(usize, usize)>>, int);

/// Records a complete assignment with its total score: a better score replaces the best
/// assignments, an equal one joins them while fewer than two distinct ones are kept.
pub open spec fn record_solution<A>(search: (Option<int>, Seq<Seq<A>>, int), current: Seq<A>, score: int) -> (Option<int>, Seq<Seq<A>>, int) {
    match search.0 {
        Some(best) => if score > best {
            (Some(score), seq![current], search.2)
        } else if score == best {
            if search.1.len() < 2 && !search.1.contains(current) {
                (search.0, search.1.push(current), search.2)
            } else {
                search
            }
        } else {
            search
        },
        None => (Some(score), search.1.push(current), search.2),
    }
}

/// The family search from `position` on: a depth-first search that, for each observation,
/// tries each unused candidate track in turn and then leaves the observation unassigned,
/// and stops visiting states once the state limit is reached.
pub open spec fn family_visit(
    observations: Seq<usize>,
    candidates: Seq<Seq<(usize, u16)>>,
    position: int,
    used: Seq<usize>,
    current: Seq<(usize, usize)>,
    score: int,
    search: FamilySearch,
) -> FamilySearch
    decreases observations.len() - position, candidate_list(candidates, observations[position]).len() + 1,
{
    if search.2 >= MAX_FAMILY_MATCHING_STATES {
        search
    } else {
        let counted = (search.0, search.1, search.2 + 1);
        if position < 0 || position >= observations.len() {
            record_solution(counted, current, score)
        } else {
            let tried = family_edges(observations, candidates, position, used, current, score, counted, 0);
            family_visit(observations, candidates, position + 1, used, current, score, tried)
        }
    }
}

/// The family search over the candidates of the observation at `position`, from the
/// `j`-th on.
pub open spec fn family_edges(
    observations: Seq<usize>,
    candidates: Seq<Seq<(usize, u16)>>,
    position: int,
    used: Seq<usize>,
    current: Seq<(usize, usize)>,
    score: int,
    search: FamilySearch,
    j: int,
) -> FamilySearch
    decreases observations.len() - position, candidate_list(candidates, observations[position]).len() - j,
{
    let list = candidate_list(candidates, observations[position]);
    if position < 0 || position >= observations.len() || j < 0 || j >= list.len() {
        search
    } else {
        let (track, points) = list[j];
        let next = if used.contains(track) {
            search
        } else {
            family_visit(
                observations,
                candidates,
                position + 1,
                used.push(track),
                current.push((observations[position], track)),
                score + FAMILY_MATCH_ASSIGNMENT_BONUS + points,
                search,
            )
        };
        family_edges(observations, candidates, position, used, current, score, next, j + 1)
    }
}

/// The score of the best assignment as the search sees it.
pub open spec fn score_view(score: Option<u64>) -> Option<int> {
    match score {
        Some(s) => Some(s as int),
        None => None,
    }
}

/// The highest score a search state can hold: every state adds at most one assignment
/// bonus and one candidate score.
pub open spec fn score_bound(states: int) -> int {
    states * 65635
}

fn pairs_equal(left: &Vec<(usize, usize)>, right: &Vec<(usize, usize)>) -> (equal: bool)
    ensures
        equal == (left@ == right@),
{
    if left.len() != right.len() {
        return false;
    }
    let mut i: usize = 0;
    while i < left.len()
        invariant
            left@.len() == right@.len(),
            i <= left@.len(),
            forall|k: int| 0 <= k < i ==> left@[k] == right@[k],
        decreases left@.len() - i,
    {
        if left[i].0 != right[i].0 || left[i].1 != right[i].1 {
            return false;
        }
        i = i + 1;
    }
    assert(left@ =~= right@);
    true
}

fn holds_solution(solutions: &Vec<Vec<(usize, usize)>>, current: &Vec<(usize, usize)>) -> (found: bool)
    ensures
        found == views(solutions@).contains(current@),
{
    let mut i: usize = 0;
    while i < solutions.len()
        invariant
            i <= solutions@.len(),
            forall|k: int| 0 <= k < i ==> solutions@[k]@ != current@,
        decreases solutions@.len() - i,
    {
        if pairs_equal(&solutions[i], current) {
            assert(views(solutions@)[i as int] == current@);
            return true;
        }
        i = i + 1;
    }
    assert forall|k: int| 0 <= k < views(solutions@).len() implies views(solutions@)[k] != current@ by {
        assert(views(solutions@)[k] == solutions@[k]@);
    }
    false
}

fn record_best(
    current: &Vec<(usize, usize)>,
    current_score: u64,
    best_score: &mut Option<u64>,
    best_solutions: &mut Vec<Vec<(usize, usize)>>,
    states: Ghost<int>,
)
    ensures
        (score_view(*final(best_score)), views(final(best_solutions)@), states@)
            == record_solution((score_view(*old(best_score)), views(old(best_solutions)@), states@), current@, current_score as int),
        match *final(best_score) {
            Some(s) => s == current_score || *old(best_score) == Some(s),
            None => false,
        },
{
    let ghost before = views(best_solutions@);
    match *best_score {
        Some(score) => {
            if current_score > score {
                *best_score = Some(current_score);
                best_solutions.clear();
                best_solutions.push(copy_pairs(current));
                assert(views(best_solutions@) =~= seq![current@]);
            } else if current_score == score {
                if best_solutions.len() < 2 && !holds_solution(best_solutions, current) {
                    best_solutions.push(copy_pairs(current));
                    assert(views(best_solutions@) =~= before.push(current@));
                }
            }
        },
        None => {
            *best_score = Some(current_score);
            best_solutions.push(copy_pairs(current));
            assert(views(best_solutions@) =~= before.push(current@));
        },
    }
}

fn visit_family(
    position: usize,
    observations: &Vec<usize>,
    candidates: &Vec<Vec<(usize, u16)>>,
    used: &mut Vec<usize>,
    current: &mut Vec<(usize, usize)>,
    current_score: u64,
    best_score: &mut Option<u64>,
    best_solutions: &mut Vec<Vec<(usize, usize)>>,
    states: &mut usize,
)
    requires
        position <= observations@.len(),
        *old(states) <= MAX_FAMILY_MATCHING_STATES,
        current_score <= score_bound(*old(states) as int),
        match *old(best_score) {
            Some(s) => s <= score_bound(*old(states) as int),
            None => true,
        },
    ensures
        final(used)@ == old(used)@,
        final(current)@ == old(current)@,
        *old(states) <= *final(states) <= MAX_FAMILY_MATCHING_STATES,
        match *final(best_score) {
            Some(s) => s <= score_bound(*final(states) as int),
            None => true,
        },
        (score_view(*final(best_score)), views(final(best_solutions)@), *final(states) as int) == family_visit(
            observations@,
            views(candidates@),
            position as int,
            old(used)@,
            old(current)@,
            current_score as int,
            (score_view(*old(best_score)), views(old(best_solutions)@), *old(states) as int),
        ),
    decreases observations@.len() - position,
{
    let ghost cands = views(candidates@);
    let ghost entry_states = *states as int;
    if *states >= MAX_FAMILY_MATCHING_STATES {
        return;
    }
    *states = *states + 1;
    if position == observations.len() {
        record_best(current, current_score, best_score, best_solutions, Ghost(*states as int));
        return;
    }
    let observation = observations[position];
    let ghost list = candidate_list(cands, observation);
    let ghost used0 = used@;
    let ghost current0 = current@;
    let ghost counted: FamilySearch = (score_view(*best_score), views(best_solutions@), *states as int);
    let count = observations.len();
    if observation < candidates.len() {
        let edges = &candidates[observation];
        assert(edges@ == list);
        let mut j: usize = 0;
        while j < edges.len()
            invariant
                count == observations@.len(),
                position < count,
                observation == observations@[position as int],
                cands == views(candidates@),
                list == candidate_list(cands, observation),
                edges@ == list,
                j <= list.len(),
                used@ == used0,
                current@ == current0,
                entry_states < *states <= MAX_FAMILY_MATCHING_STATES,
                current_score <= score_bound(entry_states),
                match *best_score {
                    Some(s) => s <= score_bound(*states as int),
                    None => true,
                },
                family_edges(observations@, cands, position as int, used0, current0, current_score as int, counted, 0)
                    == family_edges(observations@, cands, position as int, used0, current0, current_score as int,
                        (score_view(*best_score), views(best_solutions@), *states as int), j as int),
            decreases list.len() - j,
        {
            let (track, points) = edges[j];
            if !contains_id(used, track) {
                used.push(track);
                current.push((observation, track));
                let next_score = current_score + FAMILY_MATCH_ASSIGNMENT_BONUS + points as u64;
                visit_family(position + 1, observations, candidates, used, current, next_score, best_score, best_solutions, states);
                used.pop();
                current.pop();
                proof {
                    assert(used@ =~= used0);
                    assert(current@ =~= current0);
                }
            }
            j = j + 1;
        }
    } else {
        assert(family_edges(observations@, cands, position as int, used0, current0, current_score as int, counted, 0) == counted);
    }
    visit_family(position + 1, observations, candidates, used, current, current_score, best_score, best_solutions, states);
}

/// The observations whose track differs between two of the best assignments.
pub open spec fn tied_list(solutions: Seq<Seq<(usize, usize)>>, observations: Seq<usize>) -> Seq<usize>
    decreases observations.len(),
{
    if observations.len() == 0 {
        Seq::empty()
    } else {
        let rest = tied_list(solutions, observations.drop_last());
        let o = observations.last();
        if solutions.len() > 1 && exists|k: int| 0 <= k < solutions.len() && lookup(#[trigger] solutions[k], o) != lookup(solutions[0], o) {
            rest.push(o)
        } else {
            rest
        }
    }
}

/// The track an assignment gives an observation: that of its first pair for the
/// observation.
pub open spec fn lookup(solution: Seq<(usize, usize)>, observation: usize) -> Option<usize>
    decreases solution.len(),
{
    if solution.len() == 0 {
        None
    } else if solution[0].0 == observation {
        Some(solution[0].1)
    } else {
        lookup(solution.drop_first(), observation)
    }
}

/// The best one-to-one assignment of a name family and the observations on which the
/// best assignments disagree.
#[derive(Debug, Clone, PartialEq, Eq)]
pub struct FamilyMatching {
    /// The first best assignment found, as observation and track pairs.
    pub assignments: Vec<(usize, usize)>,
    /// Observations that the best assignments give different tracks, in family order.
    pub tied_observations: Vec<usize>,
}

/// The outcome of the family search from an empty assignment.
pub open spec fn family_search(observations: Seq<usize>, candidates: Seq<Seq<(usize, u16)>>) -> FamilySearch {
    family_visit(observations, candidates, 0, Seq::empty(), Seq::empty(), 0, (None, Seq::empty(), 0))
}

fn assigned_track(solution: &Vec<(usize, usize)>, observation: usize) -> (track: Option<usize>)
    ensures
        track == lookup(solution@, observation),
{
    let mut i: usize = 0;
    assert(solution@.skip(0) =~= solution@);
    while i < solution.len()
        invariant
            i <= solution@.len(),
            lookup(solution@, observation) == lookup(solution@.skip(i as int), observation),
        decreases solution@.len() - i,
    {
        assert(solution@.skip(i as int).drop_first() =~= solution@.skip(i as int + 1));
        if solution[i].0 == observation {
            return Some(solution[i].1);
        }
        i = i + 1;
    }
    None
}

fn solutions_disagree(solutions: &Vec<Vec<(usize, usize)>>, observation: usize) -> (disagree: bool)
    requires
        solutions@.len() > 0,
    ensures
        disagree == exists|k: int| 0 <= k < views(solutions@).len() && lookup(#[trigger] views(solutions@)[k], observation) != lookup(views(solutions@)[0], observation),
{
    let first = assigned_track(&solutions[0], observation);
    assert(views(solutions@)[0] == solutions@[0]@);
    let mut k: usize = 0;
    while k < solutions.len()
        invariant
            k <= solutions@.len(),
            solutions@.len() > 0,
            first == lookup(views(solutions@)[0], observation),
            forall|m: int| 0 <= m < k ==> lookup(#[trigger] views(solutions@)[m], observation) == first,
        decreases solutions@.len() - k,
    {
        assert(views(solutions@)[k as int] == solutions@[k as int]@);
        if assigned_track(&solutions[k], observation) != first {
            assert(lookup(views(solutions@)[k as int], observation) != lookup(views(solutions@)[0], observation));
            return true;
        }
        k = k + 1;
    }
    false
}

/// Finds the highest-scoring one-to-one assignment of a name family to candidate tracks:
/// every placed observation earns the assignment bonus plus its candidate score, and an
/// observation may stay unplaced. Observations on which two best assignments disagree are
/// reported as tied.
pub fn find_best_family_matching(observations: &Vec<usize>, candidates: &Vec<Vec<(usize, u16)>>) -> (matching: FamilyMatching)
    ensures
        ({
            let best = family_search(observations@, views(candidates@)).1;
            &&& matching.assignments@ == (if best.len() > 0 { best[0] } else { Seq::empty() })
            &&& matching.tied_observations@ == tied_list(best, observations@)
        }),
{
    let mut used: Vec<usize> = Vec::new();
    let mut current: Vec<(usize, usize)> = Vec::new();
    let mut best_score: Option<u64> = None;
    let mut best_solutions: Vec<Vec<(usize, usize)>> = Vec::new();
    let mut states: usize = 0;
    assert(views(best_solutions@) =~= Seq::<Seq<(usize, usize)>>::empty());
    visit_family(0, observations, candidates, &mut used, &mut current, 0, &mut best_score, &mut best_solutions, &mut states);
    let ghost best = views(best_solutions@);
    let chosen = if best_solutions.len() > 0 { copy_pairs(&best_solutions[0]) } else { Vec::new() };
    assert(best_solutions@.len() > 0 ==> best[0] == best_solutions@[0]@);
    let mut tied: Vec<usize> = Vec::new();
    let mut i: usize = 0;
    while i < observations.len()
        invariant
            i <= observations@.len(),
            best == views(best_solutions@),
            tied@ == tied_list(best, observations@.take(i as int)),
        decreases observations@.len() - i,
    {
        let observation = observations[i];
        assert(observations@.take(i as int + 1).drop_last() == observations@.take(i as int));
        if best_solutions.len() > 1 && solutions_disagree(&best_solutions, observation) {
            tied.push(observation);
        }
        i = i + 1;
    }
    assert(observations@.take(i as int) == observations@);
    FamilyMatching { assignments: chosen, tied_observations: tied }
}

/// Whether an assignment is one-to-one: each pair gives one of the observations a track
/// from that observation's candidates, and no track is given twice.
pub open spec fn one_to_one(solution: Seq<(usize, usize)>, observations: Seq<usize>, candidates: Seq<Seq<(usize, u16)>>) -> bool {
    &&& forall|a: int, b: int| 0 <= a < b < solution.len() ==> #[trigger] solution[a].1 != #[trigger] solution[b].1
    &&& forall|a: int| 0 <= a < solution.len() ==> observations.contains(#[trigger] solution[a].0)
    &&& forall|a: int| 0 <= a < solution.len() ==> has_candidate(candidates, #[trigger] solution[a])
}

/// Whether the track of a pair is one of the candidates of its observation.
pub open spec fn has_candidate(candidates: Seq<Seq<(usize, u16)>>, pair: (usize, usize)) -> bool {
    exists|j: int| 0 <= j < candidate_list(candidates, pair.0).len() && (#[trigger] candidate_list(candidates, pair.0)[j]).0 == pair.1
}

/// Whether every assignment of a list is one-to-one.
pub open spec fn all_one_to_one(solutions: Seq<Seq<(usize, usize)>>, observations: Seq<usize>, candidates: Seq<Seq<(usize, u16)>>) -> bool {
    forall|i: int| 0 <= i < solutions.len() ==> one_to_one(#[trigger] solutions[i], observations, candidates)
}

/// Whether `used` holds exactly the tracks of an assignment.
pub open spec fn tracks_of(used: Seq<usize>, current: Seq<(usize, usize)>) -> bool {
    &&& used.len() == current.len()
    &&& forall|a: int| 0 <= a < current.len() ==> #[trigger] used[a] == current[a].1
}

proof fn lemma_extend_one_to_one(
    observations: Seq<usize>,
    candidates: Seq<Seq<(usize, u16)>>,
    position: int,
    used: Seq<usize>,
    current: Seq<(usize, usize)>,
    j: int,
)
    requires
        0 <= position < observations.len(),
        0 <= j < candidate_list(candidates, observations[position]).len(),
        one_to_one(current, observations, candidates),
        tracks_of(used, current),
        !used.contains(candidate_list(candidates, observations[position])[j].0),
    ensures
        ({
            let track = candidate_list(candidates, observations[position])[j].0;
            &&& one_to_one(current.push((observations[position], track)), observations, candidates)
            &&& tracks_of(used.push(track), current.push((observations[position], track)))
        }),
{
    let track = candidate_list(candidates, observations[position])[j].0;
    let next = current.push((observations[position], track));
    assert forall|a: int, b: int| 0 <= a < b < next.len() implies #[trigger] next[a].1 != #[trigger] next[b].1 by {
        if b == current.len() {
            assert(used[a] == current[a].1);
        }
    }
    assert(observations.contains(observations[position]));
    assert forall|a: int| 0 <= a < next.len() implies observations.contains(#[trigger] next[a].0) by {
        if a < current.len() {
            assert(next[a] == current[a]);
        }
    }
    assert(tracks_of(used.push(track), next)) by {
        assert forall|a: int| 0 <= a < next.len() implies #[trigger] used.push(track)[a] == next[a].1 by {
            if a < current.len() {
                assert(used[a] == current[a].1);
            }
        }
    }
    assert forall|a: int| 0 <= a < next.len() implies has_candidate(candidates, #[trigger] next[a]) by {
        if a < current.len() {
            assert(next[a] == current[a]);
        } else {
            assert(candidate_list(candidates, next[a].0)[j].0 == next[a].1);
        }
    }
}

proof fn lemma_concat_one_to_one(a: Seq<Seq<(usize, usize)>>, b: Seq<Seq<(usize, usize)>>, observations: Seq<usize>, candidates: Seq<Seq<(usize, u16)>>)
    requires
        all_one_to_one(a, observations, candidates),
        all_one_to_one(b, observations, candidates),
    ensures
        all_one_to_one(a + b, observations, candidates),
{
    assert forall|i: int| 0 <= i < (a + b).len() implies one_to_one(#[trigger] (a + b)[i], observations, candidates) by {
        if i < a.len() {
            assert((a + b)[i] == a[i]);
        } else {
            assert((a + b)[i] == b[i - a.len()]);
        }
    }
}

proof fn lemma_matchings_one_to_one(
    observations: Seq<usize>,
    candidates: Seq<Seq<(usize, u16)>>,
    position: int,
    used: Seq<usize>,
    current: Seq<(usize, usize)>,
)
    requires
        one_to_one(current, observations, candidates),
        tracks_of(used, current),
    ensures
        all_one_to_one(matchings(observations, candidates, position, used, current), observations, candidates),
    decreases observations.len() - position, candidate_list(candidates, observations[position]).len() + 1,
{
    if 0 <= position < observations.len() {
        lemma_matchings_from_one_to_one(observations, candidates, position, used, current, 0);
    }
}

proof fn lemma_matchings_from_one_to_one(
    observations: Seq<usize>,
    candidates: Seq<Seq<(usize, u16)>>,
    position: int,
    used: Seq<usize>,
    current: Seq<(usize, usize)>,
    j: int,
)
    requires
        0 <= position < observations.len(),
        0 <= j,
        one_to_one(current, observations, candidates),
        tracks_of(used, current),
    ensures
        all_one_to_one(matchings_from(observations, candidates, position, used, current, j), observations, candidates),
    decreases observations.len() - position, candidate_list(candidates, observations[position]).len() - j,
{
    let list = candidate_list(candidates, observations[position]);
    if j < list.len() {
        let track = list[j].0;
        let here = if used.contains(track) {
            Seq::<Seq<(usize, usize)>>::empty()
        } else {
            matchings(observations, candidates, position + 1, used.push(track), current.push((observations[position], track)))
        };
        if !used.contains(track) {
            lemma_extend_one_to_one(observations, candidates, position, used, current, j);
            lemma_matchings_one_to_one(observations, candidates, position + 1, used.push(track), current.push((observations[position], track)));
        }
        lemma_matchings_from_one_to_one(observations, candidates, position, used, current, j + 1);
        lemma_concat_one_to_one(here, matchings_from(observations, candidates, position, used, current, j + 1), observations, candidates);
    }
}

/// Every assignment that the enumeration of complete assignments lists is one-to-one.
pub proof fn lemma_unique_matchings_one_to_one(observations: Seq<usize>, candidates: Seq<Seq<(usize, u16)>>)
    ensures
        all_one_to_one(matchings(observations, candidates, 0, Seq::empty(), Seq::empty()), observations, candidates),
{
    lemma_matchings_one_to_one(observations, candidates, 0, Seq::empty(), Seq::empty());
}

proof fn lemma_family_visit_one_to_one(
    observations: Seq<usize>,
    candidates: Seq<Seq<(usize, u16)>>,
    position: int,
    used: Seq<usize>,
    current: Seq<(usize, usize)>,
    score: int,
    search: FamilySearch,
)
    requires
        one_to_one(current, observations, candidates),
        tracks_of(used, current),
        all_one_to_one(search.1, observations, candidates),
    ensures
        all_one_to_one(family_visit(observations, candidates, position, used, current, score, search).1, observations, candidates),
    decreases observations.len() - position, candidate_list(candidates, observations[position]).len() + 1,
{
    if search.2 < MAX_FAMILY_MATCHING_STATES {
        let counted = (search.0, search.1, search.2 + 1);
        if position < 0 || position >= observations.len() {
            let recorded = record_solution(counted, current, score);
            assert forall|i: int| 0 <= i < recorded.1.len() implies one_to_one(#[trigger] recorded.1[i], observations, candidates) by {
                if i < search.1.len() && recorded.1[i] == search.1[i] {
                } else {
                    assert(recorded.1[i] == current);
                }
            }
        } else {
            lemma_family_edges_one_to_one(observations, candidates, position, used, current, score, counted, 0);
            let tried = family_edges(observations, candidates, position, used, current, score, counted, 0);
            lemma_family_visit_one_to_one(observations, candidates, position + 1, used, current, score, tried);
        }
    }
}

proof fn lemma_family_edges_one_to_one(
    observations: Seq<usize>,
    candidates: Seq<Seq<(usize, u16)>>,
    position: int,
    used: Seq<usize>,
    current: Seq<(usize, usize)>,
    score: int,
    search: FamilySearch,
    j: int,
)
    requires
        0 <= position < observations.len(),
        0 <= j,
        one_to_one(current, observations, candidates),
        tracks_of(used, current),
        all_one_to_one(search.1, observations, candidates),
    ensures
        all_one_to_one(family_edges(observations, candidates, position, used, current, score, search, j).1, observations, candidates),
    decreases observations.len() - position, candidate_list(candidates, observations[position]).len() - j,
{
    let list = candidate_list(candidates, observations[position]);
    if j < list.len() {
        let (track, points) = list[j];
        let next = if used.contains(track) {
            search
        } else {
            family_visit(
                observations,
                candidates,
                position + 1,
                used.push(track),
                current.push((observations[position], track)),
                score + FAMILY_MATCH_ASSIGNMENT_BONUS + points,
                search,
            )
        };
        if !used.contains(track) {
            lemma_extend_one_to_one(observations, candidates, position, used, current, j);
            lemma_family_visit_one_to_one(
                observations,
                candidates,
                position + 1,
                used.push(track),
                current.push((observations[position], track)),
                score + FAMILY_MATCH_ASSIGNMENT_BONUS + points,
                search,
            );
        }
        lemma_family_edges_one_to_one(observations, candidates, position, used, current, score, next, j + 1);
    }
}

/// Every best assignment that the family search keeps is one-to-one.
pub proof fn lemma_family_matching_one_to_one(observations: Seq<usize>, candidates: Seq<Seq<(usize, u16)>>)
    ensures
        all_one_to_one(family_search(observations, candidates).1, observations, candidates),
{
    lemma_family_visit_one_to_one(observations, candidates, 0, Seq::empty(), Seq::empty(), 0, (None, Seq::empty(), 0));
}

/// An observation of a family across frames: its frame and its index in that frame.
pub type FrameObservation = (usize, usize);

/// The candidate tracks of the observation at `position`.
pub open spec fn position_list(candidates: Seq<Seq<(usize, u16)>>, position: int) -> Seq<(usize, u16)> {
    if 0 <= position < candidates.len() {
        candidates[position]
    } else {
        Seq::empty()
    }
}

/// The state of the search across frames, as for a single frame.
pub type GlobalSearch = (Option<int>, Seq<Seq<(FrameObservation, usize)>>, int);

/// The family search across frames from `position` on: as the search within one frame,
/// except that a track may serve one observation per frame, and the candidates of the
/// observation at position `p` are `candidates[p]`.
pub open spec fn global_visit(
    observations: Seq<FrameObservation>,
    candidates: Seq<Seq<(usize, u16)>>,
    position: int,
    used: Seq<(usize, usize)>,
    current: Seq<(FrameObservation, usize)>,
    score: int,
    search: GlobalSearch,
) -> GlobalSearch
    decreases observations.len() - position, position_list(candidates, position).len() + 1,
{
    if search.2 >= MAX_FAMILY_MATCHING_STATES {
        search
    } else {
        let counted = (search.0, search.1, search.2 + 1);
        if position < 0 || position >= observations.len() {
            record_solution(counted, current, score)
        } else {
            let tried = global_edges(observations, candidates, position, used, current, score, counted, 0);
            global_visit(observations, candidates, position + 1, used, current, score, tried)
        }
    }
}

/// The search across frames over the candidates at `position`, from the `j`-th on.
pub open spec fn global_edges(
    observations: Seq<FrameObservation>,
    candidates: Seq<Seq<(usize, u16)>>,
    position: int,
    used: Seq<(usize, usize)>,
    current: Seq<(FrameObservation, usize)>,
    score: int,
    search: GlobalSearch,
    j: int,
) -> GlobalSearch
    decreases observations.len() - position, position_list(candidates, position).len() - j,
{
    let list = position_list(candidates, position);
    if position < 0 || position >= observations.len() || j < 0 || j >= list.len() {
        search
    } else {
        let (track, points) = list[j];
        let slot = (observations[position].0, track);
        let next = if used.contains(slot) {
            search
        } else {
            global_visit(
                observations,
                candidates,
                position + 1,
                used.push(slot),
                current.push((observations[position], track)),
                score + FAMILY_MATCH_ASSIGNMENT_BONUS + points,
                search,
            )
        };
        global_edges(observations, candidates, position, used, current, score, next, j + 1)
    }
}

/// The outcome of the search across frames from an empty assignment.
pub open spec fn global_search(observations: Seq<FrameObservation>, candidates: Seq<Seq<(usize, u16)>>) -> GlobalSearch {
    global_visit(observations, candidates, 0, Seq::empty(), Seq::empty(), 0, (None, Seq::empty(), 0))
}

fn copy_global(source: &Vec<(FrameObservation, usize)>) -> (copy: Vec<(FrameObservation, usize)>)
    ensures
        copy@ == source@,
{
    let mut copy: Vec<(FrameObservation, usize)> = Vec::new();
    let mut i: usize = 0;
    while i < source.len()
        invariant
            i <= source@.len(),
            copy@ == source@.take(i as int),
        decreases source@.len() - i,
    {
        copy.push(source[i]);
        assert(source@.take(i as int + 1) == source@.take(i as int).push(source@[i as int]));
        i = i + 1;
    }
    assert(source@.take(i as int) == source@);
    copy
}

fn global_equal(left: &Vec<(FrameObservation, usize)>, right: &Vec<(FrameObservation, usize)>) -> (equal: bool)
    ensures
        equal == (left@ == right@),
{
    if left.len() != right.len() {
        return false;
    }
    let mut i: usize = 0;
    while i < left.len()
        invariant
            left@.len() == right@.len(),
            i <= left@.len(),
            forall|k: int| 0 <= k < i ==> left@[k] == right@[k],
        decreases left@.len() - i,
    {
        if left[i].0.0 != right[i].0.0 || left[i].0.1 != right[i].0.1 || left[i].1 != right[i].1 {
            return false;
        }
        i = i + 1;
    }
    assert(left@ =~= right@);
    true
}

fn holds_global(solutions: &Vec<Vec<(FrameObservation, usize)>>, current: &Vec<(FrameObservation, usize)>) -> (found: bool)
    ensures
        found == views(solutions@).contains(current@),
{
    let mut i: usize = 0;
    while i < solutions.len()
        invariant
            i <= solutions@.len(),
            forall|k: int| 0 <= k < i ==> solutions@[k]@ != current@,
        decreases solutions@.len() - i,
    {
        if global_equal(&solutions[i], current) {
            assert(views(solutions@)[i as int] == current@);
            return true;
        }
        i = i + 1;
    }
    assert forall|k: int| 0 <= k < views(solutions@).len() implies views(solutions@)[k] != current@ by {
        assert(views(solutions@)[k] == solutions@[k]@);
    }
    false
}

fn record_global(
    current: &Vec<(FrameObservation, usize)>,
    current_score: u64,
    best_score: &mut Option<u64>,
    best_solutions: &mut Vec<Vec<(FrameObservation, usize)>>,
    states: Ghost<int>,
)
    ensures
        (score_view(*final(best_score)), views(final(best_solutions)@), states@)
            == record_solution((score_view(*old(best_score)), views(old(best_solutions)@), states@), current@, current_score as int),
        match *final(best_score) {
            Some(s) => s == current_score || *old(best_score) == Some(s),
            None => false,
        },
{
    let ghost before = views(best_solutions@);
    match *best_score {
        Some(score) => {
            if current_score > score {
                *best_score = Some(current_score);
                best_solutions.clear();
                best_solutions.push(copy_global(current));
                assert(views(best_solutions@) =~= seq![current@]);
            } else if current_score == score {
                if best_solutions.len() < 2 && !holds_global(best_solutions, current) {
                    best_solutions.push(copy_global(current));
                    assert(views(best_solutions@) =~= before.push(current@));
                }
            }
        },
        None => {
            *best_score = Some(current_score);
            best_solutions.push(copy_global(current));
            assert(views(best_solutions@) =~= before.push(current@));
        },
    }
}

fn contains_slot(slots: &Vec<(usize, usize)>, slot: (usize, usize)) -> (found: bool)
    ensures
        found == slots@.contains(slot),
{
    let mut i: usize = 0;
    while i < slots.len()
        invariant
            i <= slots@.len(),
            forall|k: int| 0 <= k < i ==> slots@[k] != slot,
        decreases slots@.len() - i,
    {
        if slots[i].0 == slot.0 && slots[i].1 == slot.1 {
            assert(slots@[i as int] == slot);
            return true;
        }
        i = i + 1;
    }
    false
}

fn visit_global(
    position: usize,
    observations: &Vec<FrameObservation>,
    candidates: &Vec<Vec<(usize, u16)>>,
    used: &mut Vec<(usize, usize)>,
    current: &mut Vec<(FrameObservation, usize)>,
    current_score: u64,
    best_score: &mut Option<u64>,
    best_solutions: &mut Vec<Vec<(FrameObservation, usize)>>,
    states: &mut usize,
)
    requires
        position <= observations@.len(),
        *old(states) <= MAX_FAMILY_MATCHING_STATES,
        current_score <= score_bound(*old(states) as int),
        match *old(best_score) {
            Some(s) => s <= score_bound(*old(states) as int),
            None => true,
        },
    ensures
        final(used)@ == old(used)@,
        final(current)@ == old(current)@,
        *old(states) <= *final(states) <= MAX_FAMILY_MATCHING_STATES,
        match *final(best_score) {
            Some(s) => s <= score_bound(*final(states) as int),
            None => true,
        },
        (score_view(*final(best_score)), views(final(best_solutions)@), *final(states) as int) == global_visit(
            observations@,
            views(candidates@),
            position as int,
            old(used)@,
            old(current)@,
            current_score as int,
            (score_view(*old(best_score)), views(old(best_solutions)@), *old(states) as int),
        ),
    decreases observations@.len() - position,
{
    let ghost cands = views(candidates@);
    let ghost entry_states = *states as int;
    if *states >= MAX_FAMILY_MATCHING_STATES {
        return;
    }
    *states = *states + 1;
    if position == observations.len() {
        record_global(current, current_score, best_score, best_solutions, Ghost(*states as int));
        return;
    }
    let observation = observations[position];
    let ghost list = position_list(cands, position as int);
    let ghost used0 = used@;
    let ghost current0 = current@;
    let ghost counted: GlobalSearch = (score_view(*best_score), views(best_solutions@), *states as int);
    let count = observations.len();
    if position < candidates.len() {
        let edges = &candidates[position];
        assert(edges@ == list);
        let mut j: usize = 0;
        while j < edges.len()
            invariant
                count == observations@.len(),
                position < count,
                observation == observations@[position as int],
                cands == views(candidates@),
                list == position_list(cands, position as int),
                edges@ == list,
                j <= list.len(),
                used@ == used0,
                current@ == current0,
                entry_states < *states <= MAX_FAMILY_MATCHING_STATES,
                current_score <= score_bound(entry_states),
                match *best_score {
                    Some(s) => s <= score_bound(*states as int),
                    None => true,
                },
                global_edges(observations@, cands, position as int, used0, current0, current_score as int, counted, 0)
                    == global_edges(observations@, cands, position as int, used0, current0, current_score as int,
                        (score_view(*best_score), views(best_solutions@), *states as int), j as int),
            decreases list.len() - j,
        {
            let (track, points) = edges[j];
            let slot = (observation.0, track);
            if !contains_slot(used, slot) {
                used.push(slot);
                current.push((observation, track));
                let next_score = current_score + FAMILY_MATCH_ASSIGNMENT_BONUS + points as u64;
                visit_global(position + 1, observations, candidates, used, current, next_score, best_score, best_solutions, states);
                used.pop();
                current.pop();
                proof {
                    assert(used@ =~= used0);
                    assert(current@ =~= current0);
                }
            }
            j = j + 1;
        }
    } else {
        assert(global_edges(observations@, cands, position as int, used0, current0, current_score as int, counted, 0) == counted);
    }
    visit_global(position + 1, observations, candidates, used, current, current_score, best_score, best_solutions, states);
}

/// The track an assignment across frames gives an observation: that of its first pair for
/// the observation.
pub open spec fn global_lookup(solution: Seq<(FrameObservation, usize)>, observation: FrameObservation) -> Option<usize>
    decreases solution.len(),
{
    if solution.len() == 0 {
        None
    } else if solution[0].0 == observation {
        Some(solution[0].1)
    } else {
        global_lookup(solution.drop_first(), observation)
    }
}

/// The observations whose track differs between two of the best assignments across frames.
pub open spec fn global_tied_list(solutions: Seq<Seq<(FrameObservation, usize)>>, observations: Seq<FrameObservation>) -> Seq<FrameObservation>
    decreases observations.len(),
{
    if observations.len() == 0 {
        Seq::empty()
    } else {
        let rest = global_tied_list(solutions, observations.drop_last());
        let o = observations.last();
        if solutions.len() > 1 && exists|k: int| 0 <= k < solutions.len() && global_lookup(#[trigger] solutions[k], o) != global_lookup(solutions[0], o) {
            rest.push(o)
        } else {
            rest
        }
    }
}

/// The best assignment of a name family across frames and the observations on which the
/// best assignments disagree.
#[derive(Debug, Clone, PartialEq, Eq)]
pub struct GlobalFamilyMatching {
    /// The first best assignment found, as observation and track pairs.
    pub assignments: Vec<(FrameObservation, usize)>,
    /// Observations that the best assignments give different tracks, in family order.
    pub tied_observations: Vec<FrameObservation>,
}

pub fn global_track(solution: &Vec<(FrameObservation, usize)>, observation: FrameObservation) -> (track: Option<usize>)
    ensures
        track == global_lookup(solution@, observation),
{
    let mut i: usize = 0;
    assert(solution@.skip(0) =~= solution@);
    while i < solution.len()
        invariant
            i <= solution@.len(),
            global_lookup(solution@, observation) == global_lookup(solution@.skip(i as int), observation),
        decreases solution@.len() - i,
    {
        assert(solution@.skip(i as int).drop_first() =~= solution@.skip(i as int + 1));
        if solution[i].0.0 == observation.0 && solution[i].0.1 == observation.1 {
            return Some(solution[i].1);
        }
        i = i + 1;
    }
    None
}

fn global_disagree(solutions: &Vec<Vec<(FrameObservation, usize)>>, observation: FrameObservation) -> (disagree: bool)
    requires
        solutions@.len() > 0,
    ensures
        disagree == exists|k: int| 0 <= k < views(solutions@).len() && global_lookup(#[trigger] views(solutions@)[k], observation) != global_lookup(views(solutions@)[0], observation),
{
    let first = global_track(&solutions[0], observation);
    assert(views(solutions@)[0] == solutions@[0]@);
    let mut k: usize = 0;
    while k < solutions.len()
        invariant
            k <= solutions@.len(),
            solutions@.len() > 0,
            first == global_lookup(views(solutions@)[0], observation),
            forall|m: int| 0 <= m < k ==> global_lookup(#[trigger] views(solutions@)[m], observation) == first,
        decreases solutions@.len() - k,
    {
        assert(views(solutions@)[k as int] == solutions@[k as int]@);
        if global_track(&solutions[k], observation) != first {
            assert(global_lookup(views(solutions@)[k as int], observation) != global_lookup(views(solutions@)[0], observation));
            return true;
        }
        k = k + 1;
    }
    false
}

/// Finds the highest-scoring assignment of a name family's observations across frames to
/// candidate tracks, where a track serves at most one observation per frame. The
/// candidates of `observations[p]` are `candidates[p]`.
pub fn find_best_global_family_matching(observations: &Vec<FrameObservation>, candidates: &Vec<Vec<(usize, u16)>>) -> (matching: GlobalFamilyMatching)
    ensures
        ({
            let best = global_search(observations@, views(candidates@)).1;
            &&& matching.assignments@ == (if best.len() > 0 { best[0] } else { Seq::empty() })
            &&& matching.tied_observations@ == global_tied_list(best, observations@)
        }),
{
    let mut used: Vec<(usize, usize)> = Vec::new();
    let mut current: Vec<(FrameObservation, usize)> = Vec::new();
    let mut best_score: Option<u64> = None;
    let mut best_solutions: Vec<Vec<(FrameObservation, usize)>> = Vec::new();
    let mut states: usize = 0;
    assert(views(best_solutions@) =~= Seq::<Seq<(FrameObservation, usize)>>::empty());
    visit_global(0, observations, candidates, &mut used, &mut current, 0, &mut best_score, &mut best_solutions, &mut states);
    let ghost best = views(best_solutions@);
    let chosen = if best_solutions.len() > 0 { copy_global(&best_solutions[0]) } else { Vec::new() };
    assert(best_solutions@.len() > 0 ==> best[0] == best_solutions@[0]@);
    let mut tied: Vec<FrameObservation> = Vec::new();
    let mut i: usize = 0;
    while i < observations.len()
        invariant
            i <= observations@.len(),
            best == views(best_solutions@),
            tied@ == global_tied_list(best, observations@.take(i as int)),
        decreases observations@.len() - i,
    {
        let observation = observations[i];
        assert(observations@.take(i as int + 1).drop_last() == observations@.take(i as int));
        if best_solutions.len() > 1 && global_disagree(&best_solutions, observation) {
            tied.push(observation);
        }
        i = i + 1;
    }
    assert(observations@.take(i as int) == observations@);
    GlobalFamilyMatching { assignments: chosen, tied_observations: tied }
}

/// Whether the observation of a pair sits at some position whose candidates hold the
/// pair's track.
pub open spec fn has_global_candidate(observations: Seq<FrameObservation>, candidates: Seq<Seq<(usize, u16)>>, pair: (FrameObservation, usize)) -> bool {
    exists|p: int, j: int| 0 <= p < observations.len() && observations[p] == pair.0 && 0 <= j < position_list(candidates, p).len()
        && (#[trigger] position_list(candidates, p)[j]).0 == pair.1
}

/// Whether an assignment across frames gives no track twice in one frame, and gives each
/// observation a track from its candidates.
pub open spec fn slot_one_to_one(solution: Seq<(FrameObservation, usize)>, observations: Seq<FrameObservation>, candidates: Seq<Seq<(usize, u16)>>) -> bool {
    &&& forall|a: int, b: int| 0 <= a < b < solution.len()
        ==> ((#[trigger] solution[a]).0.0, solution[a].1) != ((#[trigger] solution[b]).0.0, solution[b].1)
    &&& forall|a: int| 0 <= a < solution.len() ==> has_global_candidate(observations, candidates, #[trigger] solution[a])
}

/// Whether every assignment of a list gives no track twice in one frame.
pub open spec fn all_slot_one_to_one(solutions: Seq<Seq<(FrameObservation, usize)>>, observations: Seq<FrameObservation>, candidates: Seq<Seq<(usize, u16)>>) -> bool {
    forall|i: int| 0 <= i < solutions.len() ==> slot_one_to_one(#[trigger] solutions[i], observations, candidates)
}

/// Whether `used` holds exactly the frame and track slots of an assignment.
pub open spec fn slots_of(used: Seq<(usize, usize)>, current: Seq<(FrameObservation, usize)>) -> bool {
    &&& used.len() == current.len()
    &&& forall|a: int| 0 <= a < current.len() ==> #[trigger] used[a] == (current[a].0.0, current[a].1)
}

proof fn lemma_extend_slots(
    observations: Seq<FrameObservation>,
    candidates: Seq<Seq<(usize, u16)>>,
    position: int,
    used: Seq<(usize, usize)>,
    current: Seq<(FrameObservation, usize)>,
    j: int,
)
    requires
        0 <= position < observations.len(),
        0 <= j < position_list(candidates, position).len(),
        slot_one_to_one(current, observations, candidates),
        slots_of(used, current),
        !used.contains((observations[position].0, position_list(candidates, position)[j].0)),
    ensures
        ({
            let track = position_list(candidates, position)[j].0;
            &&& slot_one_to_one(current.push((observations[position], track)), observations, candidates)
            &&& slots_of(used.push((observations[position].0, track)), current.push((observations[position], track)))
        }),
{
    let track = position_list(candidates, position)[j].0;
    let next = current.push((observations[position], track));
    let slot = (observations[position].0, track);
    assert forall|a: int, b: int| 0 <= a < b < next.len()
        implies ((#[trigger] next[a]).0.0, next[a].1) != ((#[trigger] next[b]).0.0, next[b].1) by {
        if b == current.len() {
            assert(used[a] == (current[a].0.0, current[a].1));
        }
    }
    assert forall|a: int| 0 <= a < next.len() implies has_global_candidate(observations, candidates, #[trigger] next[a]) by {
        if a < current.len() {
            assert(next[a] == current[a]);
        } else {
            assert(position_list(candidates, position)[j].0 == next[a].1);
        }
    }
    assert(slots_of(used.push(slot), next)) by {
        assert forall|a: int| 0 <= a < next.len() implies #[trigger] used.push(slot)[a] == (next[a].0.0, next[a].1) by {
            if a < current.len() {
                assert(used[a] == (current[a].0.0, current[a].1));
            }
        }
    }
}

proof fn lemma_global_visit_slots(
    observations: Seq<FrameObservation>,
    candidates: Seq<Seq<(usize, u16)>>,
    position: int,
    used: Seq<(usize, usize)>,
    current: Seq<(FrameObservation, usize)>,
    score: int,
    search: GlobalSearch,
)
    requires
        slot_one_to_one(current, observations, candidates),
        slots_of(used, current),
        all_slot_one_to_one(search.1, observations, candidates),
    ensures
        all_slot_one_to_one(global_visit(observations, candidates, position, used, current, score, search).1, observations, candidates),
    decreases observations.len() - position, position_list(candidates, position).len() + 1,
{
    if search.2 < MAX_FAMILY_MATCHING_STATES {
        let counted = (search.0, search.1, search.2 + 1);
        if position < 0 || position >= observations.len() {
            let recorded = record_solution(counted, current, score);
            assert forall|i: int| 0 <= i < recorded.1.len() implies slot_one_to_one(#[trigger] recorded.1[i], observations, candidates) by {
                if i < search.1.len() && recorded.1[i] == search.1[i] {
                } else {
                    assert(recorded.1[i] == current);
                }
            }
        } else {
            lemma_global_edges_slots(observations, candidates, position, used, current, score, counted, 0);
            let tried = global_edges(observations, candidates, position, used, current, score, counted, 0);
            lemma_global_visit_slots(observations, candidates, position + 1, used, current, score, tried);
        }
    }
}

proof fn lemma_global_edges_slots(
    observations: Seq<FrameObservation>,
    candidates: Seq<Seq<(usize, u16)>>,
    position: int,
    used: Seq<(usize, usize)>,
    current: Seq<(FrameObservation, usize)>,
    score: int,
    search: GlobalSearch,
    j: int,
)
    requires
        0 <= position < observations.len(),
        0 <= j,
        slot_one_to_one(current, observations, candidates),
        slots_of(used, current),
        all_slot_one_to_one(search.1, observations, candidates),
    ensures
        all_slot_one_to_one(global_edges(observations, candidates, position, used, current, score, search, j).1, observations, candidates),
    decreases observations.len() - position, position_list(candidates, position).len() - j,
{
    let list = position_list(candidates, position);
    if j < list.len() {
        let (track, points) = list[j];
        let slot = (observations[position].0, track);
        let next = if used.contains(slot) {
            search
        } else {
            global_visit(
                observations,
                candidates,
                position + 1,
                used.push(slot),
                current.push((observations[position], track)),
                score + FAMILY_MATCH_ASSIGNMENT_BONUS + points,
                search,
            )
        };
        if !used.contains(slot) {
            lemma_extend_slots(observations, candidates, position, used, current, j);
            lemma_global_visit_slots(
                observations,
                candidates,
                position + 1,
                used.push(slot),
                current.push((observations[position], track)),
                score + FAMILY_MATCH_ASSIGNMENT_BONUS + points,
                search,
            );
        }
        lemma_global_edges_slots(observations, candidates, position, used, current, score, next, j + 1);
    }
}

/// Every best assignment that the search across frames keeps gives a track at most one
/// observation per frame, each from that observation's candidates.
pub proof fn lemma_global_matching_one_per_frame(observations: Seq<FrameObservation>, candidates: Seq<Seq<(usize, u16)>>)
    ensures
        all_slot_one_to_one(global_search(observations, candidates).1, observations, candidates),
{
    lemma_global_visit_slots(observations, candidates, 0, Seq::empty(), Seq::empty(), 0, (None, Seq::empty(), 0));
}

} // verus!
