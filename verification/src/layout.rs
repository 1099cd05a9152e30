//! Vertical layout of one beat: every entity of the beat gets a slot, and the
//! tracks are moved to the slots.
//!
//! The running height starts at the vertical origin. It advances by the
//! in-group gap after every entity, the last of a group included, and by the
//! inter-group gap after every group.
use vstd::prelude::*;
use crate::color::color_at;
use crate::track::{
    TrackState, TrackView, Transition, TransitionView, color_of, has_track, height_of,
    lemma_place_wf, lemma_track_index_unique, place, track_index, tracks_wf,
};

verus! {

/// One step of the story: the cast sorted into groups, in drawing order.
#[derive(Clone, Debug, PartialEq, Eq)]
pub struct Beat {
    pub groups: Vec<Vec<String>>,
}

impl View for Beat {
    type V = Seq<Seq<Seq<char>>>;

    open spec fn view(&self) -> Seq<Seq<Seq<char>>> {
        Seq::new(
            self.groups@.len(),
            |g: int| Seq::new(self.groups@[g]@.len(), |e: int| self.groups@[g]@[e]@),
        )
    }
}

/// The vertical measures of a layout, in layout units.
#[derive(Clone, Copy, Debug)]
pub struct Spacing {
    /// Height of the first slot of every beat.
    pub vertical_origin: i64,
    /// Distance between neighbours in a group.
    pub in_group_gap: u32,
    /// Extra distance between two groups.
    pub inter_group_gap: u32,
}

/// An entity and the height that a beat gives it.
#[derive(Clone, Debug, PartialEq, Eq)]
pub struct Slot {
    pub entity: String,
    pub y: i64,
}

/// The mathematical value of a `Slot`.
pub struct SlotView {
    pub name: Seq<char>,
    pub y: int,
}

impl View for Slot {
    type V = SlotView;

    open spec fn view(&self) -> SlotView {
        SlotView { name: self.entity@, y: self.y as int }
    }
}

/// The values of a sequence of slots.
pub open spec fn slot_views(slots: Seq<Slot>) -> Seq<SlotView> {
    Seq::new(slots.len(), |i: int| slots[i]@)
}

/// The values of a sequence of transitions.
pub open spec fn transition_views(ts: Seq<Transition>) -> Seq<TransitionView> {
    Seq::new(ts.len(), |i: int| ts[i]@)
}

/// Why a beat cannot be laid out.
#[derive(Clone, Debug, PartialEq, Eq)]
pub enum LayoutError {
    /// The entity is listed twice in the beat of this index.
    DuplicateEntityInBeat { beat_index: usize, entity: String },
}

/// The height of the slot that has `groups_before` whole groups and
/// `entities_before` entities in front of it.
pub open spec fn slot_y(spacing: Spacing, groups_before: int, entities_before: int) -> int {
    spacing.vertical_origin + entities_before * spacing.in_group_gap + groups_before
        * spacing.inter_group_gap
}

/// The number of entities listed in the groups.
pub open spec fn entity_count(groups: Seq<Seq<Seq<char>>>) -> nat
    decreases groups.len(),
{
    if groups.len() == 0 {
        0
    } else {
        entity_count(groups.drop_last()) + groups.last().len()
    }
}

/// The slots of one group that has `g` groups and `n` entities in front of it.
pub open spec fn group_slots(group: Seq<Seq<char>>, spacing: Spacing, g: int, n: int) -> Seq<
    SlotView,
> {
    Seq::new(group.len(), |e: int| SlotView { name: group[e], y: slot_y(spacing, g, n + e) })
}

/// The slots of a beat: its entities in group order, then in the order within
/// the group, each with its height.
pub open spec fn beat_slots(groups: Seq<Seq<Seq<char>>>, spacing: Spacing) -> Seq<SlotView>
    decreases groups.len(),
{
    if groups.len() == 0 {
        Seq::empty()
    } else {
        let head = groups.drop_last();
        beat_slots(head, spacing) + group_slots(
            groups.last(),
            spacing,
            head.len() as int,
            entity_count(head) as int,
        )
    }
}

/// The running height stays within the machine's range to the end of the beat.
pub open spec fn beat_fits(groups: Seq<Seq<Seq<char>>>, spacing: Spacing) -> bool {
    slot_y(spacing, groups.len() as int, entity_count(groups) as int) <= i64::MAX
}

/// The name of slot `k` also stands in an earlier slot.
pub open spec fn repeats_at(slots: Seq<SlotView>, k: int) -> bool {
    exists|i: int| 0 <= i < k && (#[trigger] slots[i]).name == slots[k].name
}

/// No name stands in two slots.
pub open spec fn no_repeat(slots: Seq<SlotView>) -> bool {
    forall|k: int| 0 <= k < slots.len() ==> !#[trigger] repeats_at(slots, k)
}

/// Slot `k` is the first whose name stands in an earlier slot too.
pub open spec fn first_repeat_at(slots: Seq<SlotView>, k: int) -> bool {
    &&& 0 <= k < slots.len()
    &&& repeats_at(slots, k)
    &&& forall|j: int| 0 <= j < k ==> !#[trigger] repeats_at(slots, j)
}

/// The name is the one of the first slot whose name stands in an earlier slot
/// too.
pub open spec fn is_first_repeat(slots: Seq<SlotView>, name: Seq<char>) -> bool {
    exists|k: int| #[trigger] first_repeat_at(slots, k) && name == slots[k].name
}

/// The tracks after the entities have been placed in their slots, one after
/// the other.
pub open spec fn place_all(tracks: Seq<TrackView>, slots: Seq<SlotView>) -> Seq<TrackView>
    decreases slots.len(),
{
    if slots.len() == 0 {
        tracks
    } else {
        place(place_all(tracks, slots.drop_last()), slots.last().name, slots.last().y).0
    }
}

/// The moves that placing the entities in their slots makes, in slot order.
pub open spec fn transitions_of(tracks: Seq<TrackView>, slots: Seq<SlotView>) -> Seq<
    TransitionView,
>
    decreases slots.len(),
{
    if slots.len() == 0 {
        Seq::empty()
    } else {
        transitions_of(tracks, slots.drop_last()).push(
            place(place_all(tracks, slots.drop_last()), slots.last().name, slots.last().y).1,
        )
    }
}

/// One more group adds its length to the count.
pub proof fn lemma_count_step(groups: Seq<Seq<Seq<char>>>, g: int)
    requires
        0 <= g < groups.len(),
    ensures
        entity_count(groups.take(g + 1)) == entity_count(groups.take(g)) + groups[g].len(),
{
    assert(groups.take(g + 1).drop_last() =~= groups.take(g));
}

/// One more group adds its slots to the slots.
pub proof fn lemma_slots_step(groups: Seq<Seq<Seq<char>>>, spacing: Spacing, g: int)
    requires
        0 <= g < groups.len(),
    ensures
        beat_slots(groups.take(g + 1), spacing) == beat_slots(groups.take(g), spacing)
            + group_slots(groups[g], spacing, g, entity_count(groups.take(g)) as int),
{
    assert(groups.take(g + 1).drop_last() =~= groups.take(g));
}

/// A longer prefix of the groups lists at least as many entities.
pub proof fn lemma_count_monotone(groups: Seq<Seq<Seq<char>>>, a: int, b: int)
    requires
        0 <= a <= b <= groups.len(),
    ensures
        entity_count(groups.take(a)) <= entity_count(groups.take(b)),
    decreases b - a,
{
    if a < b {
        lemma_count_monotone(groups, a, b - 1);
        lemma_count_step(groups, b - 1);
    }
}

/// Heights grow with the number of groups and entities in front.
pub proof fn lemma_slot_y_monotone(spacing: Spacing, g1: int, n1: int, g2: int, n2: int)
    requires
        0 <= g1 <= g2,
        0 <= n1 <= n2,
    ensures
        spacing.vertical_origin <= slot_y(spacing, g1, n1) <= slot_y(spacing, g2, n2),
{
    let a = spacing.in_group_gap as int;
    let b = spacing.inter_group_gap as int;
    assert(0 <= n1 * a <= n2 * a) by (nonlinear_arith)
        requires
            0 <= n1 <= n2,
            0 <= a,
    ;
    assert(0 <= g1 * b <= g2 * b) by (nonlinear_arith)
        requires
            0 <= g1 <= g2,
            0 <= b,
    ;
}

/// Computes the slots of a beat.
pub fn slots_of(beat: &Beat, spacing: &Spacing) -> (slots: Vec<Slot>)
    requires
        beat_fits(beat@, *spacing),
    ensures
        slot_views(slots@) == beat_slots(beat@, *spacing),
{
    let mut out: Vec<Slot> = Vec::new();
    let mut y: i64 = spacing.vertical_origin;
    let mut g: usize = 0;
    let ghost groups = beat@;
    let ghost total = entity_count(groups) as int;
    let ghost mut n: int = 0;
    assert(groups.take(groups.len() as int) =~= groups);
    assert(slot_views(out@) =~= beat_slots(groups.take(0), *spacing));
    while g < beat.groups.len()
        invariant
            groups == beat@,
            groups.len() == beat.groups@.len(),
            total == entity_count(groups),
            groups.take(groups.len() as int) == groups,
            beat_fits(groups, *spacing),
            g <= groups.len(),
            n == entity_count(groups.take(g as int)),
            y == slot_y(*spacing, g as int, n),
            slot_views(out@) == beat_slots(groups.take(g as int), *spacing),
        decreases beat.groups@.len() - g,
    {
        let group = &beat.groups[g];
        let ghost names = groups[g as int];
        let ghost before = beat_slots(groups.take(g as int), *spacing);
        let ghost here = group_slots(names, *spacing, g as int, n);
        proof {
            lemma_count_step(groups, g as int);
            lemma_slots_step(groups, *spacing, g as int);
            lemma_count_monotone(groups, g as int + 1, groups.len() as int);
            assert(slot_views(out@) =~= before + here.take(0));
        }
        let mut e: usize = 0;
        while e < group.len()
            invariant
                groups == beat@,
                group == beat.groups@[g as int],
                names == groups[g as int],
                names.len() == group@.len(),
                g < groups.len(),
                e <= names.len(),
                0 <= n,
                n + names.len() <= total,
                total == entity_count(groups),
                beat_fits(groups, *spacing),
                y == slot_y(*spacing, g as int, n + e),
                here == group_slots(names, *spacing, g as int, n),
                slot_views(out@) == before + here.take(e as int),
            decreases group@.len() - e,
        {
            proof {
                lemma_slot_y_monotone(*spacing, g as int, n + e + 1, groups.len() as int, total);
                lemma_slot_y_monotone(*spacing, g as int, n + e, g as int, n + e + 1);
                assert((n + e + 1) * spacing.in_group_gap == (n + e) * spacing.in_group_gap
                    + spacing.in_group_gap) by (nonlinear_arith);
            }
            let ghost shown = slot_views(out@);
            out.push(Slot { entity: group[e].clone(), y: y });
            proof {
                assert(names[e as int] == group@[e as int]@);
                assert(slot_views(out@) =~= shown.push(here[e as int]));
                assert(here.take(e as int + 1) =~= here.take(e as int).push(here[e as int]));
                assert(before + here.take(e as int + 1) =~= (before + here.take(e as int)).push(
                    here[e as int],
                ));
            }
            y = y + spacing.in_group_gap as i64;
            e += 1;
        }
        proof {
            assert(here.take(e as int) =~= here);
            lemma_slot_y_monotone(*spacing, g as int + 1, n + e, groups.len() as int, total);
            lemma_slot_y_monotone(*spacing, g as int, n + e, g as int + 1, n + e);
            assert((g + 1) * spacing.inter_group_gap == g * spacing.inter_group_gap
                + spacing.inter_group_gap) by (nonlinear_arith);
            n = n + e;
        }
        y = y + spacing.inter_group_gap as i64;
        g += 1;
    }
    out
}

/// Tells whether the running height stays within the machine's range to the
/// end of the beat, as `slots_of` and `layout_beat` need it.
pub fn beat_in_range(beat: &Beat, spacing: &Spacing) -> (ok: bool)
    ensures
        ok == beat_fits(beat@, *spacing),
{
    let ghost groups = beat@;
    let limit: i128 = i64::MAX as i128;
    let mut y: i128 = spacing.vertical_origin as i128;
    let mut g: usize = 0;
    assert(groups.take(groups.len() as int) =~= groups);
    assert(entity_count(groups.take(0)) == 0);
    while g < beat.groups.len()
        invariant
            groups == beat@,
            groups.len() == beat.groups@.len(),
            groups.take(groups.len() as int) == groups,
            limit == i64::MAX,
            g <= groups.len(),
            y == slot_y(*spacing, g as int, entity_count(groups.take(g as int)) as int),
            y <= i64::MAX,
        decreases beat.groups@.len() - g,
    {
        let n: usize = beat.groups[g].len();
        let ghost before = entity_count(groups.take(g as int)) as int;
        proof {
            lemma_count_step(groups, g as int);
            lemma_slot_y_monotone(*spacing, 0, 0, g as int, before);
            let a = spacing.in_group_gap as int;
            let b = spacing.inter_group_gap as int;
            assert(0 <= n * a <= 0x1_0000_0000_0000_0000 * 0x1_0000_0000) by (nonlinear_arith)
                requires
                    0 <= n <= 0x1_0000_0000_0000_0000,
                    0 <= a <= 0x1_0000_0000,
            ;
            assert((before + n) * a == before * a + n * a) by (nonlinear_arith);
            assert((g + 1) * b == g * b + b) by (nonlinear_arith);
        }
        let step: i128 = (n as i128) * (spacing.in_group_gap as i128) + spacing.inter_group_gap as i128;
        y = y + step;
        if y > limit {
            proof {
                lemma_count_monotone(groups, g as int + 1, groups.len() as int);
                lemma_slot_y_monotone(
                    *spacing,
                    g as int + 1,
                    before + n,
                    groups.len() as int,
                    entity_count(groups) as int,
                );
            }
            return false;
        }
        g += 1;
    }
    true
}

/// Finds the first slot whose name stands in an earlier slot too.
pub fn first_repeat(slots: &Vec<Slot>) -> (r: Option<usize>)
    ensures
        match r {
            Some(k) => first_repeat_at(slot_views(slots@), k as int),
            None => no_repeat(slot_views(slots@)),
        },
{
    let ghost views = slot_views(slots@);
    let mut k: usize = 0;
    while k < slots.len()
        invariant
            views == slot_views(slots@),
            k <= slots@.len(),
            forall|j: int| 0 <= j < k ==> !#[trigger] repeats_at(views, j),
        decreases slots@.len() - k,
    {
        let mut i: usize = 0;
        while i < k
            invariant
                views == slot_views(slots@),
                k < slots@.len(),
                i <= k,
                forall|j: int| 0 <= j < k ==> !#[trigger] repeats_at(views, j),
                forall|h: int| 0 <= h < i ==> (#[trigger] views[h]).name != views[k as int].name,
            decreases k - i,
        {
            if slots[i].entity == slots[k].entity {
                assert(views[i as int].name == views[k as int].name);
                return Some(k);
            }
            i += 1;
        }
        k += 1;
    }
    None
}

/// Places the entities in their slots, one after the other, and reports their
/// moves in slot order.
pub fn apply_slots(state: &mut TrackState, slots: &Vec<Slot>) -> (moves: Vec<Transition>)
    requires
        old(state).wf(),
    ensures
        final(state).wf(),
        final(state)@ == place_all(old(state)@, slot_views(slots@)),
        transition_views(moves@) == transitions_of(old(state)@, slot_views(slots@)),
{
    let ghost views = slot_views(slots@);
    let ghost start = state@;
    let mut moves: Vec<Transition> = Vec::new();
    let mut k: usize = 0;
    assert(transition_views(moves@) =~= transitions_of(start, views.take(0)));
    while k < slots.len()
        invariant
            views == slot_views(slots@),
            start == old(state)@,
            k <= slots@.len(),
            state.wf(),
            state@ == place_all(start, views.take(k as int)),
            transition_views(moves@) == transitions_of(start, views.take(k as int)),
        decreases slots@.len() - k,
    {
        let ghost shown = transition_views(moves@);
        let t = state.place(&slots[k].entity, slots[k].y);
        moves.push(t);
        proof {
            assert(views.take(k as int + 1).drop_last() =~= views.take(k as int));
            assert(views.take(k as int + 1).last() == views[k as int]);
            assert(transition_views(moves@) =~= shown.push(t@));
        }
        k += 1;
    }
    assert(views.take(k as int) =~= views);
    moves
}

/// Lays out one beat. Without a repeated entity, every entity of the beat is
/// placed in its slot and its move is reported, in slot order; entities that
/// the beat does not list keep their tracks. With a repeated entity, the first
/// repetition is reported and the state is left as it was.
pub fn layout_beat(beat: &Beat, beat_index: usize, spacing: &Spacing, state: &mut TrackState) -> (r:
    Result<Vec<Transition>, LayoutError>)
    requires
        old(state).wf(),
        beat_fits(beat@, *spacing),
    ensures
        final(state).wf(),
        r is Ok <==> no_repeat(beat_slots(beat@, *spacing)),
        match r {
            Ok(moves) => {
                &&& final(state)@ == place_all(old(state)@, beat_slots(beat@, *spacing))
                &&& transition_views(moves@) == transitions_of(
                    old(state)@,
                    beat_slots(beat@, *spacing),
                )
            },
            Err(LayoutError::DuplicateEntityInBeat { beat_index: at, entity }) => {
                &&& at == beat_index
                &&& final(state)@ == old(state)@
                &&& is_first_repeat(beat_slots(beat@, *spacing), entity@)
            },
        },
{
    let slots = slots_of(beat, spacing);
    match first_repeat(&slots) {
        Some(k) => {
            proof {
                let views = beat_slots(beat@, *spacing);
                assert(first_repeat_at(views, k as int));
                assert(repeats_at(views, k as int));
            }
            Err(
                LayoutError::DuplicateEntityInBeat {
                    beat_index: beat_index,
                    entity: slots[k].entity.clone(),
                },
            )
        },
        None => {
            let moves = apply_slots(state, &slots);
            Ok(moves)
        },
    }
}

/// Some slot holds the name.
pub open spec fn slot_has(slots: Seq<SlotView>, name: Seq<char>) -> bool {
    exists|k: int| 0 <= k < slots.len() && (#[trigger] slots[k]).name == name
}

/// Placing entities moves no track to another place in the state and changes
/// no track's name or colour. A track whose entity is not among the slots
/// stays as it is.
pub proof fn lemma_place_all_keeps(tracks: Seq<TrackView>, slots: Seq<SlotView>)
    requires
        tracks_wf(tracks),
    ensures
        tracks_wf(place_all(tracks, slots)),
        place_all(tracks, slots).len() >= tracks.len(),
        forall|i: int|
            0 <= i < tracks.len() ==> {
                &&& (#[trigger] place_all(tracks, slots)[i]).name == tracks[i].name
                &&& place_all(tracks, slots)[i].color == tracks[i].color
                &&& !slot_has(slots, tracks[i].name) ==> place_all(tracks, slots)[i] == tracks[i]
            },
    decreases slots.len(),
{
    if slots.len() > 0 {
        let head = slots.drop_last();
        let mid = place_all(tracks, head);
        lemma_place_all_keeps(tracks, head);
        lemma_place_wf(mid, slots.last().name, slots.last().y);
        let after = place_all(tracks, slots);
        assert forall|i: int| 0 <= i < tracks.len() implies {
            &&& (#[trigger] after[i]).name == tracks[i].name
            &&& after[i].color == tracks[i].color
            &&& !slot_has(slots, tracks[i].name) ==> after[i] == tracks[i]
        } by {
            assert(mid[i].name == tracks[i].name);
            if !slot_has(slots, tracks[i].name) {
                assert(slots[slots.len() - 1].name != tracks[i].name);
                if slot_has(head, tracks[i].name) {
                    let k = choose|k: int|
                        0 <= k < head.len() && (#[trigger] head[k]).name == tracks[i].name;
                    assert(slots[k].name == tracks[i].name);
                }
                assert(after[i].name == mid[i].name);
                assert(after[i].color == mid[i].color);
                assert(after[i].y == mid[i].y);
            }
        }
    }
}

/// The move of slot `k` is the one that placing its entity makes in the state
/// that the slots before it have left.
pub proof fn lemma_transition_at(tracks: Seq<TrackView>, slots: Seq<SlotView>, k: int)
    requires
        0 <= k < slots.len(),
    ensures
        transitions_of(tracks, slots).len() == slots.len(),
        transitions_of(tracks, slots)[k] == place(
            place_all(tracks, slots.take(k)),
            slots[k].name,
            slots[k].y,
        ).1,
        transitions_of(tracks, slots)[k].entity == slots[k].name,
        transitions_of(tracks, slots)[k].new_y == slots[k].y,
    decreases slots.len(),
{
    lemma_transitions_len(tracks, slots);
    let head = slots.drop_last();
    lemma_transitions_len(tracks, head);
    if k == slots.len() - 1 {
        assert(slots.take(k) =~= head);
    } else {
        lemma_transition_at(tracks, head, k);
        assert(head.take(k) =~= slots.take(k));
    }
}

/// Every slot gives one move.
pub proof fn lemma_transitions_len(tracks: Seq<TrackView>, slots: Seq<SlotView>)
    ensures
        transitions_of(tracks, slots).len() == slots.len(),
    decreases slots.len(),
{
    if slots.len() > 0 {
        lemma_transitions_len(tracks, slots.drop_last());
    }
}

/// An entity that a beat does not list keeps its track: its place in the
/// state, its colour and the height at which it rests.
pub proof fn lemma_absent_keeps_track(tracks: Seq<TrackView>, slots: Seq<SlotView>, name: Seq<char>)
    requires
        tracks_wf(tracks),
        has_track(tracks, name),
        !slot_has(slots, name),
    ensures
        has_track(place_all(tracks, slots), name),
        track_index(place_all(tracks, slots), name) == track_index(tracks, name),
        color_of(place_all(tracks, slots), name) == color_of(tracks, name),
        height_of(place_all(tracks, slots), name) == height_of(tracks, name),
{
    let i = track_index(tracks, name);
    lemma_place_all_keeps(tracks, slots);
    lemma_track_index_unique(place_all(tracks, slots), i);
}

/// The move of an entity that the beat lists once starts where the entity
/// rested before the beat and has the entity's colour, if the entity was seen
/// before. Otherwise the entity appears in place, in the next free colour
/// after those of the known entities and of the new ones listed before it.
pub proof fn lemma_move_start(tracks: Seq<TrackView>, slots: Seq<SlotView>, k: int)
    requires
        tracks_wf(tracks),
        0 <= k < slots.len(),
        !repeats_at(slots, k),
    ensures
        has_track(tracks, slots[k].name) ==> {
            &&& transitions_of(tracks, slots)[k].previous_y == height_of(tracks, slots[k].name)
            &&& transitions_of(tracks, slots)[k].color == color_of(tracks, slots[k].name)
        },
        !has_track(tracks, slots[k].name) ==> {
            &&& transitions_of(tracks, slots)[k].previous_y == slots[k].y
            &&& transitions_of(tracks, slots)[k].color == color_at(
                place_all(tracks, slots.take(k)).len(),
            )
        },
{
    let name = slots[k].name;
    let head = slots.take(k);
    let mid = place_all(tracks, head);
    lemma_transition_at(tracks, slots, k);
    lemma_place_all_keeps(tracks, head);
    if slot_has(head, name) {
        let i = choose|i: int| 0 <= i < head.len() && (#[trigger] head[i]).name == name;
        assert(slots[i].name == slots[k].name);
    }
    if has_track(tracks, name) {
        lemma_absent_keeps_track(tracks, head, name);
    } else {
        lemma_untouched_stays_unknown(tracks, head, name);
    }
}

/// An entity without a track that a beat does not list still has no track
/// after the beat.
pub proof fn lemma_untouched_stays_unknown(
    tracks: Seq<TrackView>,
    slots: Seq<SlotView>,
    name: Seq<char>,
)
    requires
        !has_track(tracks, name),
        !slot_has(slots, name),
    ensures
        !has_track(place_all(tracks, slots), name),
    decreases slots.len(),
{
    if slots.len() > 0 {
        let head = slots.drop_last();
        if slot_has(head, name) {
            let i = choose|i: int| 0 <= i < head.len() && (#[trigger] head[i]).name == name;
            assert(slots[i].name == name);
        }
        lemma_untouched_stays_unknown(tracks, head, name);
        let mid = place_all(tracks, head);
        let after = place_all(tracks, slots);
        assert(slots[slots.len() - 1].name != name);
        if has_track(after, name) {
            let j = choose|j: int| 0 <= j < after.len() && (#[trigger] after[j]).name == name;
            if has_track(mid, slots.last().name) {
                let h = track_index(mid, slots.last().name);
                if j != h {
                    assert(mid[j].name == name);
                }
            } else {
                if j < mid.len() {
                    assert(mid[j].name == name);
                }
            }
        }
    }
}

/// Re-introduction: an entity that one beat leaves out and the next beat lists
/// once starts its move at the height where it rested before the two beats.
pub proof fn lemma_reintroduced_resumes(
    tracks: Seq<TrackView>,
    absent: Seq<SlotView>,
    present: Seq<SlotView>,
    k: int,
)
    requires
        tracks_wf(tracks),
        0 <= k < present.len(),
        !repeats_at(present, k),
        has_track(tracks, present[k].name),
        !slot_has(absent, present[k].name),
    ensures
        transitions_of(place_all(tracks, absent), present)[k].previous_y == height_of(
            tracks,
            present[k].name,
        ),
        transitions_of(place_all(tracks, absent), present)[k].color == color_of(
            tracks,
            present[k].name,
        ),
{
    lemma_place_all_keeps(tracks, absent);
    lemma_absent_keeps_track(tracks, absent, present[k].name);
    lemma_move_start(place_all(tracks, absent), present, k);
}

/// The name stands in the group.
pub open spec fn occurs_in(group: Seq<Seq<char>>, name: Seq<char>) -> bool {
    exists|e: int| 0 <= e < group.len() && #[trigger] group[e] == name
}

/// The name stands in two different groups.
pub open spec fn in_two_groups(groups: Seq<Seq<Seq<char>>>, name: Seq<char>) -> bool {
    exists|g1: int, g2: int|
        0 <= g1 < g2 < groups.len() && occurs_in(#[trigger] groups[g1], name) && occurs_in(
            #[trigger] groups[g2],
            name,
        )
}

/// Some name stands twice in the group.
pub open spec fn group_repeats(group: Seq<Seq<char>>) -> bool {
    exists|e1: int, e2: int| 0 <= e1 < e2 < group.len() && #[trigger] group[e1] == #[trigger] group[e2]
}

/// The groups sort entities apart: none stands in two groups, and none twice
/// in one group.
pub open spec fn groups_disjoint(groups: Seq<Seq<Seq<char>>>) -> bool {
    &&& forall|name: Seq<char>| !in_two_groups(groups, name)
    &&& forall|g: int| 0 <= g < groups.len() ==> !group_repeats(#[trigger] groups[g])
}

/// The place among the slots of the entity `e` of group `g`.
pub open spec fn slot_index(groups: Seq<Seq<Seq<char>>>, g: int, e: int) -> int {
    entity_count(groups.take(g)) + e
}

/// A beat has one slot for every entity that it lists. The slot of entity `e`
/// of group `g` holds that entity's name, and its height counts the groups
/// and the entities in front of it.
pub proof fn lemma_slot_at(groups: Seq<Seq<Seq<char>>>, spacing: Spacing, g: int, e: int)
    requires
        0 <= g < groups.len(),
        0 <= e < groups[g].len(),
    ensures
        beat_slots(groups, spacing).len() == entity_count(groups),
        0 <= slot_index(groups, g, e) < entity_count(groups),
        beat_slots(groups, spacing)[slot_index(groups, g, e)] == (SlotView {
            name: groups[g][e],
            y: slot_y(spacing, g, slot_index(groups, g, e)),
        }),
    decreases groups.len(),
{
    let head = groups.drop_last();
    lemma_slots_len(groups, spacing);
    lemma_slots_len(head, spacing);
    if g == groups.len() - 1 {
        assert(groups.take(g) =~= head);
    } else {
        lemma_slot_at(head, spacing, g, e);
        assert(head.take(g) =~= groups.take(g));
    }
}

/// A beat has one slot for every entity that it lists.
pub proof fn lemma_slots_len(groups: Seq<Seq<Seq<char>>>, spacing: Spacing)
    ensures
        beat_slots(groups, spacing).len() == entity_count(groups),
    decreases groups.len(),
{
    if groups.len() > 0 {
        lemma_slots_len(groups.drop_last(), spacing);
    }
}

/// Every slot of a beat is the slot of one entity of one of its groups.
pub proof fn lemma_slot_source(groups: Seq<Seq<Seq<char>>>, spacing: Spacing, k: int) -> (at: (
    int,
    int,
))
    requires
        0 <= k < beat_slots(groups, spacing).len(),
    ensures
        0 <= at.0 < groups.len(),
        0 <= at.1 < groups[at.0].len(),
        k == slot_index(groups, at.0, at.1),
        beat_slots(groups, spacing)[k].name == groups[at.0][at.1],
    decreases groups.len(),
{
    let head = groups.drop_last();
    lemma_slots_len(head, spacing);
    if k < beat_slots(head, spacing).len() {
        let at = lemma_slot_source(head, spacing, k);
        assert(head.take(at.0) =~= groups.take(at.0));
        at
    } else {
        let g = groups.len() - 1;
        assert(groups.take(g) =~= head);
        (g, k - entity_count(head))
    }
}

/// Slots follow group order: the slots of an earlier group come first.
pub proof fn lemma_slot_order(groups: Seq<Seq<Seq<char>>>, g1: int, e1: int, g2: int, e2: int)
    requires
        0 <= g1 < g2 < groups.len(),
        0 <= e1 < groups[g1].len(),
        0 <= e2,
    ensures
        slot_index(groups, g1, e1) < slot_index(groups, g2, e2),
{
    lemma_count_step(groups, g1);
    lemma_count_monotone(groups, g1 + 1, g2);
}

/// Duplicate detection, first half: a beat that lists an entity in two
/// different groups has a repeated name among its slots, so its layout fails.
pub proof fn lemma_two_groups_repeat(groups: Seq<Seq<Seq<char>>>, spacing: Spacing, name: Seq<char>)
    requires
        in_two_groups(groups, name),
    ensures
        !no_repeat(beat_slots(groups, spacing)),
{
    let (g1, g2) = choose|g1: int, g2: int|
        0 <= g1 < g2 < groups.len() && occurs_in(#[trigger] groups[g1], name) && occurs_in(
            #[trigger] groups[g2],
            name,
        );
    let e1 = choose|e: int| 0 <= e < groups[g1].len() && #[trigger] groups[g1][e] == name;
    let e2 = choose|e: int| 0 <= e < groups[g2].len() && #[trigger] groups[g2][e] == name;
    lemma_slot_at(groups, spacing, g1, e1);
    lemma_slot_at(groups, spacing, g2, e2);
    lemma_slot_order(groups, g1, e1, g2, e2);
    let slots = beat_slots(groups, spacing);
    let k1 = slot_index(groups, g1, e1);
    let k2 = slot_index(groups, g2, e2);
    assert(slots[k1].name == slots[k2].name);
    assert(repeats_at(slots, k2));
}

/// Duplicate detection, second half: a beat in which no entity stands in two
/// groups, and none twice in one group, has no repeated name among its slots,
/// so its layout succeeds.
pub proof fn lemma_disjoint_groups_no_repeat(groups: Seq<Seq<Seq<char>>>, spacing: Spacing)
    requires
        groups_disjoint(groups),
    ensures
        no_repeat(beat_slots(groups, spacing)),
{
    let slots = beat_slots(groups, spacing);
    assert forall|k: int| 0 <= k < slots.len() implies !#[trigger] repeats_at(slots, k) by {
        if repeats_at(slots, k) {
            let i = choose|i: int| 0 <= i < k && (#[trigger] slots[i]).name == slots[k].name;
            let a = lemma_slot_source(groups, spacing, i);
            let b = lemma_slot_source(groups, spacing, k);
            let name = slots[k].name;
            if a.0 == b.0 {
                assert(a.1 < b.1);
                assert(groups[a.0][a.1] == groups[a.0][b.1]);
                assert(group_repeats(groups[a.0]));
            } else {
                assert(occurs_in(groups[a.0], name));
                assert(occurs_in(groups[b.0], name));
                if a.0 < b.0 {
                    assert(in_two_groups(groups, name));
                } else {
                    assert(in_two_groups(groups, name));
                }
            }
        }
    }
}

/// Every move is drawn in the colour that its entity's track has after the
/// beat.
pub proof fn lemma_move_color(tracks: Seq<TrackView>, slots: Seq<SlotView>, k: int)
    requires
        tracks_wf(tracks),
        0 <= k < slots.len(),
    ensures
        has_track(place_all(tracks, slots), slots[k].name),
        transitions_of(tracks, slots)[k].color == color_of(place_all(tracks, slots), slots[k].name),
    decreases slots.len(),
{
    let head = slots.drop_last();
    let mid = place_all(tracks, head);
    let after = place_all(tracks, slots);
    let last = slots.last();
    lemma_place_all_keeps(tracks, head);
    lemma_place_wf(mid, last.name, last.y);
    lemma_transitions_len(tracks, head);
    if k == slots.len() - 1 {
        if has_track(mid, last.name) {
            let i = track_index(mid, last.name);
            lemma_track_index_unique(after, i);
        } else {
            lemma_track_index_unique(after, mid.len() as int);
        }
    } else {
        lemma_move_color(tracks, head, k);
        let i = track_index(mid, slots[k].name);
        assert(head[k] == slots[k]);
        lemma_track_index_unique(after, i);
    }
}

/// After a beat that lists no entity twice, every entity of the beat rests at
/// the height of its slot.
pub proof fn lemma_placed_rests_at_slot(tracks: Seq<TrackView>, slots: Seq<SlotView>, k: int)
    requires
        tracks_wf(tracks),
        no_repeat(slots),
        0 <= k < slots.len(),
    ensures
        has_track(place_all(tracks, slots), slots[k].name),
        height_of(place_all(tracks, slots), slots[k].name) == slots[k].y,
    decreases slots.len(),
{
    let head = slots.drop_last();
    let mid = place_all(tracks, head);
    let after = place_all(tracks, slots);
    let last = slots.last();
    lemma_place_all_keeps(tracks, head);
    lemma_place_wf(mid, last.name, last.y);
    if k == slots.len() - 1 {
        if has_track(mid, last.name) {
            lemma_track_index_unique(after, track_index(mid, last.name));
        } else {
            lemma_track_index_unique(after, mid.len() as int);
        }
    } else {
        assert forall|h: int| 0 <= h < head.len() implies !#[trigger] repeats_at(head, h) by {
            assert(!repeats_at(slots, h));
            if repeats_at(head, h) {
                let i = choose|i: int| 0 <= i < h && (#[trigger] head[i]).name == head[h].name;
                assert(slots[i].name == slots[h].name);
            }
        }
        lemma_placed_rests_at_slot(tracks, head, k);
        assert(head[k] == slots[k]);
        assert(!repeats_at(slots, slots.len() - 1));
        assert(slots[k].name != last.name);
        let i = track_index(mid, slots[k].name);
        lemma_track_index_unique(after, i);
    }
}

} // verus!
