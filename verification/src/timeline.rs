//! The whole run: the beats are laid out in order, each at its place on the
//! horizontal axis, and their shapes are collected in drawing order.
use vstd::prelude::*;
use crate::curve::{
    Point, Primitive, curve_of, emit, halo_stroke, line_stroke, point_at, segment_of, shapes_of,
};
use crate::layout::{
    Beat, LayoutError, Spacing, beat_fits, beat_in_range, beat_slots, entity_count,
    groups_disjoint, is_first_repeat, layout_beat, lemma_disjoint_groups_no_repeat,
    lemma_place_all_keeps, lemma_slot_at, lemma_slots_len, lemma_transition_at,
    lemma_transitions_len, no_repeat, place_all, slot_index, slot_y, transition_views,
    transitions_of,
};
use crate::track::{
    TrackState, TrackView, Transition, TransitionView, color_of, has_track,
    lemma_track_index_unique, track_index, tracks_wf,
};

verus! {

/// All measures of a drawing, in layout units.
#[derive(Clone, Copy, Debug)]
pub struct Settings {
    pub spacing: Spacing,
    /// Where the first beat's curves start.
    pub horizontal_origin: i64,
    /// Width of the curved part of a beat.
    pub curve_span: u32,
    /// Width of the straight part of a beat.
    pub straight_span: u32,
    /// Width of an entity's line.
    pub stroke_width: u32,
    /// Names are written at every beat whose index is a multiple of this
    /// number; with 0, at none.
    pub label_every: usize,
}

impl Settings {
    /// The measures of the standard drawing.
    pub fn standard() -> (s: Settings)
        ensures
            s.spacing.vertical_origin == 10,
            s.spacing.in_group_gap == 10,
            s.spacing.inter_group_gap == 50,
            s.horizontal_origin == 10,
            s.curve_span == 70,
            s.straight_span == 50,
            s.stroke_width == 5,
            s.label_every == 4,
    {
        Settings {
            spacing: Spacing { vertical_origin: 10, in_group_gap: 10, inter_group_gap: 50 },
            horizontal_origin: 10,
            curve_span: 70,
            straight_span: 50,
            stroke_width: 5,
            label_every: 4,
        }
    }
}

/// The values of a sequence of beats.
pub open spec fn story_view(beats: Seq<Beat>) -> Seq<Seq<Seq<Seq<char>>>> {
    Seq::new(beats.len(), |i: int| beats[i]@)
}

/// How far the cursor moves with every beat.
pub open spec fn advance(settings: Settings) -> int {
    settings.curve_span + settings.straight_span
}

/// Where the curves of the beat of index `i` start.
pub open spec fn cursor_at(settings: Settings, i: int) -> int {
    settings.horizontal_origin + i * advance(settings)
}

/// The tracks after all the beats of the story have been laid out.
pub open spec fn run_tracks(story: Seq<Seq<Seq<Seq<char>>>>, spacing: Spacing) -> Seq<TrackView>
    decreases story.len(),
{
    if story.len() == 0 {
        Seq::empty()
    } else {
        place_all(run_tracks(story.drop_last(), spacing), beat_slots(story.last(), spacing))
    }
}

/// The moves of the story's last beat.
pub open spec fn last_moves(story: Seq<Seq<Seq<Seq<char>>>>, spacing: Spacing) -> Seq<
    TransitionView,
>
    recommends
        story.len() > 0,
{
    transitions_of(run_tracks(story.drop_last(), spacing), beat_slots(story.last(), spacing))
}

/// The shapes of one beat's moves, move after move, for curves that start at
/// `x`.
pub open spec fn beat_shapes(moves: Seq<TransitionView>, x: int, settings: Settings) -> Seq<
    Primitive,
>
    decreases moves.len(),
{
    if moves.len() == 0 {
        Seq::empty()
    } else {
        beat_shapes(moves.drop_last(), x, settings) + shapes_of(
            moves.last(),
            x,
            settings.curve_span as int,
            settings.straight_span as int,
            settings.stroke_width as int,
        )
    }
}

/// The shapes of the whole story, beat after beat.
pub open spec fn run_shapes(story: Seq<Seq<Seq<Seq<char>>>>, settings: Settings) -> Seq<Primitive>
    decreases story.len(),
{
    if story.len() == 0 {
        Seq::empty()
    } else {
        run_shapes(story.drop_last(), settings) + beat_shapes(
            last_moves(story, settings.spacing),
            cursor_at(settings, story.len() - 1),
            settings,
        )
    }
}

/// Where an entity's name is written: at the start of the straight run of
/// its move in one beat.
#[derive(Clone, Debug, PartialEq, Eq)]
pub struct Label {
    pub beat_index: usize,
    pub entity: String,
    pub anchor: Point,
}

/// The mathematical value of a `Label`.
pub struct LabelView {
    pub beat_index: int,
    pub entity: Seq<char>,
    pub anchor: Point,
}

impl View for Label {
    type V = LabelView;

    open spec fn view(&self) -> LabelView {
        LabelView { beat_index: self.beat_index as int, entity: self.entity@, anchor: self.anchor }
    }
}

/// The values of a sequence of labels.
pub open spec fn label_views(labels: Seq<Label>) -> Seq<LabelView> {
    Seq::new(labels.len(), |i: int| labels[i]@)
}

/// The shapes and the labels of a story.
#[derive(Clone, Debug, PartialEq, Eq)]
pub struct Drawing {
    pub shapes: Vec<Primitive>,
    pub labels: Vec<Label>,
}

/// Whether names are written at the beat of index `i`.
pub open spec fn labelled(settings: Settings, i: int) -> bool {
    settings.label_every > 0 && i % (settings.label_every as int) == 0
}

/// The labels of one beat's moves, one for every move, for curves that start
/// at `x`.
pub open spec fn beat_labels(
    moves: Seq<TransitionView>,
    beat_index: int,
    x: int,
    settings: Settings,
) -> Seq<LabelView> {
    Seq::new(
        moves.len(),
        |k: int|
            LabelView {
                beat_index: beat_index,
                entity: moves[k].entity,
                anchor: point_at(x + settings.curve_span, moves[k].new_y),
            },
    )
}

/// The labels of the whole story, beat after beat.
pub open spec fn run_labels(story: Seq<Seq<Seq<Seq<char>>>>, settings: Settings) -> Seq<LabelView>
    decreases story.len(),
{
    if story.len() == 0 {
        Seq::empty()
    } else if labelled(settings, story.len() - 1) {
        run_labels(story.drop_last(), settings) + beat_labels(
            last_moves(story, settings.spacing),
            story.len() - 1,
            cursor_at(settings, story.len() - 1),
            settings,
        )
    } else {
        run_labels(story.drop_last(), settings)
    }
}

/// No beat of the story lists an entity twice.
pub open spec fn story_disjoint(story: Seq<Seq<Seq<Seq<char>>>>, spacing: Spacing) -> bool {
    forall|i: int| 0 <= i < story.len() ==> no_repeat(#[trigger] beat_slots(story[i], spacing))
}

/// The beat of index `i` is the first that lists an entity twice.
pub open spec fn first_bad_beat(story: Seq<Seq<Seq<Seq<char>>>>, spacing: Spacing, i: int) -> bool {
    &&& 0 <= i < story.len()
    &&& !no_repeat(beat_slots(story[i], spacing))
    &&& forall|j: int| 0 <= j < i ==> no_repeat(#[trigger] beat_slots(story[j], spacing))
}

/// Every height and every horizontal position of the drawing stays within the
/// machine's range.
pub open spec fn story_fits(story: Seq<Seq<Seq<Seq<char>>>>, settings: Settings) -> bool {
    &&& forall|i: int| 0 <= i < story.len() ==> beat_fits(#[trigger] story[i], settings.spacing)
    &&& cursor_at(settings, story.len() as int) <= i64::MAX
}

/// Tells whether every height and every horizontal position of the drawing
/// stays within the machine's range, as `render` needs it.
pub fn story_in_range(beats: &Vec<Beat>, settings: &Settings) -> (ok: bool)
    ensures
        ok == story_fits(story_view(beats@), *settings),
{
    let ghost story = story_view(beats@);
    let mut i: usize = 0;
    while i < beats.len()
        invariant
            story == story_view(beats@),
            i <= beats@.len(),
            forall|j: int| 0 <= j < i ==> beat_fits(#[trigger] story[j], settings.spacing),
        decreases beats@.len() - i,
    {
        if !beat_in_range(&beats[i], &settings.spacing) {
            assert(!beat_fits(story[i as int], settings.spacing));
            return false;
        }
        i += 1;
    }
    let n: usize = beats.len();
    let a: i128 = settings.curve_span as i128 + settings.straight_span as i128;
    assert(0 <= n * a <= 0x1_0000_0000_0000_0000 * 0x2_0000_0000) by (nonlinear_arith)
        requires
            0 <= n <= 0x1_0000_0000_0000_0000,
            0 <= a <= 0x2_0000_0000,
    ;
    let end: i128 = settings.horizontal_origin as i128 + (n as i128) * a;
    end <= i64::MAX as i128
}

/// Builds the shapes of one beat's moves, for curves that start at `x`.
pub fn emit_beat(moves: &Vec<Transition>, x: i64, settings: &Settings) -> (shapes: Vec<Primitive>)
    requires
        x + advance(*settings) <= i64::MAX,
    ensures
        shapes@ == beat_shapes(transition_views(moves@), x as int, *settings),
{
    let ghost views = transition_views(moves@);
    let mut shapes: Vec<Primitive> = Vec::new();
    let mut k: usize = 0;
    assert(shapes@ =~= beat_shapes(views.take(0), x as int, *settings));
    while k < moves.len()
        invariant
            views == transition_views(moves@),
            k <= moves@.len(),
            x + advance(*settings) <= i64::MAX,
            shapes@ == beat_shapes(views.take(k as int), x as int, *settings),
        decreases moves@.len() - k,
    {
        let mut four = emit(
            &moves[k],
            x,
            settings.curve_span,
            settings.straight_span,
            settings.stroke_width,
        );
        shapes.append(&mut four);
        proof {
            assert(views.take(k as int + 1).drop_last() =~= views.take(k as int));
            assert(views.take(k as int + 1).last() == views[k as int]);
        }
        k += 1;
    }
    assert(views.take(k as int) =~= views);
    shapes
}

/// Builds the labels of one beat's moves, for curves that start at `x`.
pub fn label_beat(moves: &Vec<Transition>, beat_index: usize, x: i64, settings: &Settings) -> (labels:
    Vec<Label>)
    requires
        x + advance(*settings) <= i64::MAX,
    ensures
        label_views(labels@) == beat_labels(
            transition_views(moves@),
            beat_index as int,
            x as int,
            *settings,
        ),
{
    let ghost views = transition_views(moves@);
    let anchor_x: i64 = x + settings.curve_span as i64;
    let mut labels: Vec<Label> = Vec::new();
    let mut k: usize = 0;
    while k < moves.len()
        invariant
            views == transition_views(moves@),
            k <= moves@.len(),
            anchor_x == x + settings.curve_span,
            labels@.len() == k,
            forall|h: int|
                0 <= h < k ==> (#[trigger] labels@[h])@ == beat_labels(
                    views,
                    beat_index as int,
                    x as int,
                    *settings,
                )[h],
        decreases moves@.len() - k,
    {
        labels.push(
            Label {
                beat_index: beat_index,
                entity: moves[k].entity.clone(),
                anchor: Point { x: anchor_x, y: moves[k].new_y },
            },
        );
        k += 1;
    }
    assert(label_views(labels@) =~= beat_labels(views, beat_index as int, x as int, *settings));
    labels
}

/// Draws the story with its labels. Without a repeated entity in any beat,
/// the result holds the shapes of every beat in order, and the labels of
/// every labelled beat in order. Otherwise the first repetition in the first
/// beat that has one is reported.
pub fn draw(beats: &Vec<Beat>, settings: &Settings) -> (r: Result<Drawing, LayoutError>)
    requires
        story_fits(story_view(beats@), *settings),
    ensures
        r is Ok <==> story_disjoint(story_view(beats@), settings.spacing),
        match r {
            Ok(drawing) => {
                &&& drawing.shapes@ == run_shapes(story_view(beats@), *settings)
                &&& label_views(drawing.labels@) == run_labels(story_view(beats@), *settings)
            },
            Err(LayoutError::DuplicateEntityInBeat { beat_index, entity }) => {
                &&& first_bad_beat(story_view(beats@), settings.spacing, beat_index as int)
                &&& is_first_repeat(
                    beat_slots(story_view(beats@)[beat_index as int], settings.spacing),
                    entity@,
                )
            },
        },
{
    let ghost story = story_view(beats@);
    let mut state = TrackState::new();
    let mut shapes: Vec<Primitive> = Vec::new();
    let mut labels: Vec<Label> = Vec::new();
    let mut x: i64 = settings.horizontal_origin;
    let mut i: usize = 0;
    assert(story.take(0) =~= Seq::<Seq<Seq<Seq<char>>>>::empty());
    assert(label_views(labels@) =~= run_labels(story.take(0), *settings));
    while i < beats.len()
        invariant
            story == story_view(beats@),
            story_fits(story, *settings),
            i <= beats@.len(),
            state.wf(),
            x == cursor_at(*settings, i as int),
            state@ == run_tracks(story.take(i as int), settings.spacing),
            shapes@ == run_shapes(story.take(i as int), *settings),
            label_views(labels@) == run_labels(story.take(i as int), *settings),
            forall|j: int| 0 <= j < i ==> no_repeat(#[trigger] beat_slots(story[j], settings.spacing)),
        decreases beats@.len() - i,
    {
        proof {
            assert(story[i as int] == beats@[i as int]@);
            assert(beat_fits(story[i as int], settings.spacing));
            lemma_cursor_step(*settings, i as int, story.len() as int);
            assert(story.take(i as int + 1).drop_last() =~= story.take(i as int));
            assert(story.take(i as int + 1).last() == story[i as int]);
        }
        match layout_beat(&beats[i], i, &settings.spacing, &mut state) {
            Ok(moves) => {
                let mut more = emit_beat(&moves, x, settings);
                shapes.append(&mut more);
                if settings.label_every > 0 && i % settings.label_every == 0 {
                    let ghost shown = label_views(labels@);
                    let mut names = label_beat(&moves, i, x, settings);
                    let ghost added = label_views(names@);
                    labels.append(&mut names);
                    assert(label_views(labels@) =~= shown + added);
                }
            },
            Err(e) => {
                return Err(e);
            },
        }
        x = x + (settings.curve_span as i64 + settings.straight_span as i64);
        i += 1;
    }
    assert(story.take(i as int) =~= story);
    Ok(Drawing { shapes: shapes, labels: labels })
}

/// Draws the story. Without a repeated entity in any beat, the result holds
/// the shapes of every beat in order. Otherwise the first repetition in the
/// first beat that has one is reported.
pub fn render(beats: &Vec<Beat>, settings: &Settings) -> (r: Result<Vec<Primitive>, LayoutError>)
    requires
        story_fits(story_view(beats@), *settings),
    ensures
        r is Ok <==> story_disjoint(story_view(beats@), settings.spacing),
        match r {
            Ok(shapes) => shapes@ == run_shapes(story_view(beats@), *settings),
            Err(LayoutError::DuplicateEntityInBeat { beat_index, entity }) => {
                &&& first_bad_beat(story_view(beats@), settings.spacing, beat_index as int)
                &&& is_first_repeat(
                    beat_slots(story_view(beats@)[beat_index as int], settings.spacing),
                    entity@,
                )
            },
        },
{
    match draw(beats, settings) {
        Ok(drawing) => Ok(drawing.shapes),
        Err(e) => Err(e),
    }
}

/// The cursor of a later beat lies further right, by a whole advance for
/// every beat between.
pub proof fn lemma_cursor_step(settings: Settings, i: int, n: int)
    requires
        0 <= i < n,
    ensures
        cursor_at(settings, i + 1) == cursor_at(settings, i) + advance(settings),
        settings.horizontal_origin <= cursor_at(settings, i),
        cursor_at(settings, i + 1) <= cursor_at(settings, n),
{
    let a = advance(settings);
    assert((i + 1) * a == i * a + a) by (nonlinear_arith);
    assert(0 <= i * a && (i + 1) * a <= n * a) by (nonlinear_arith)
        requires
            0 <= i < n,
            0 <= a,
    ;
}

/// A story whose beats all sort their entities apart has no repeated entity in
/// any beat, so it is drawn in full.
pub proof fn lemma_disjoint_story(story: Seq<Seq<Seq<Seq<char>>>>, spacing: Spacing)
    requires
        forall|b: int| 0 <= b < story.len() ==> groups_disjoint(#[trigger] story[b]),
    ensures
        story_disjoint(story, spacing),
{
    assert forall|b: int| 0 <= b < story.len() implies no_repeat(
        #[trigger] beat_slots(story[b], spacing),
    ) by {
        lemma_disjoint_groups_no_repeat(story[b], spacing);
    }
}

/// Monotonicity: where every beat has some width, the cursor of a later beat
/// lies to the right of the whole of an earlier beat.
pub proof fn lemma_cursor_increases(settings: Settings, i: int, j: int)
    requires
        0 <= i < j,
        advance(settings) > 0,
    ensures
        cursor_at(settings, i) < cursor_at(settings, i) + advance(settings) <= cursor_at(settings, j),
{
    let a = advance(settings);
    assert((i + 1) * a == i * a + a) by (nonlinear_arith);
    assert((i + 1) * a <= j * a) by (nonlinear_arith)
        requires
            i + 1 <= j,
            0 <= a,
    ;
}

/// The state of a run is well formed after every beat.
pub proof fn lemma_run_tracks_wf(story: Seq<Seq<Seq<Seq<char>>>>, spacing: Spacing)
    ensures
        tracks_wf(run_tracks(story, spacing)),
    decreases story.len(),
{
    if story.len() > 0 {
        lemma_run_tracks_wf(story.drop_last(), spacing);
        lemma_place_all_keeps(
            run_tracks(story.drop_last(), spacing),
            beat_slots(story.last(), spacing),
        );
    }
}

/// Colour stability: an entity that has a colour after `a` beats has the same
/// colour after any later number `b` of beats.
pub proof fn lemma_colors_stable(
    story: Seq<Seq<Seq<Seq<char>>>>,
    spacing: Spacing,
    a: int,
    b: int,
    name: Seq<char>,
)
    requires
        0 <= a <= b <= story.len(),
        has_track(run_tracks(story.take(a), spacing), name),
    ensures
        has_track(run_tracks(story.take(b), spacing), name),
        track_index(run_tracks(story.take(b), spacing), name) == track_index(
            run_tracks(story.take(a), spacing),
            name,
        ),
        color_of(run_tracks(story.take(b), spacing), name) == color_of(
            run_tracks(story.take(a), spacing),
            name,
        ),
    decreases b - a,
{
    if a < b {
        lemma_colors_stable(story, spacing, a, b - 1, name);
        let before = run_tracks(story.take(b - 1), spacing);
        let i = track_index(before, name);
        assert(story.take(b).drop_last() =~= story.take(b - 1));
        lemma_run_tracks_wf(story.take(b - 1), spacing);
        lemma_place_all_keeps(before, beat_slots(story[b - 1], spacing));
        lemma_track_index_unique(run_tracks(story.take(b), spacing), i);
    }
}

/// The number of entities listed in all the beats, each counted once for
/// every beat that lists it.
pub open spec fn story_count(story: Seq<Seq<Seq<Seq<char>>>>) -> nat
    decreases story.len(),
{
    if story.len() == 0 {
        0
    } else {
        story_count(story.drop_last()) + entity_count(story.last())
    }
}

/// Every move gives four shapes.
pub proof fn lemma_beat_shapes_len(moves: Seq<TransitionView>, x: int, settings: Settings)
    ensures
        beat_shapes(moves, x, settings).len() == 4 * moves.len(),
    decreases moves.len(),
{
    if moves.len() > 0 {
        lemma_beat_shapes_len(moves.drop_last(), x, settings);
    }
}

/// The shapes of move `k` of a beat stand at the places from `4 * k` on.
pub proof fn lemma_beat_shapes_at(
    moves: Seq<TransitionView>,
    x: int,
    settings: Settings,
    k: int,
    j: int,
)
    requires
        0 <= k < moves.len(),
        0 <= j < 4,
    ensures
        beat_shapes(moves, x, settings).len() == 4 * moves.len(),
        beat_shapes(moves, x, settings)[4 * k + j] == shapes_of(
            moves[k],
            x,
            settings.curve_span as int,
            settings.straight_span as int,
            settings.stroke_width as int,
        )[j],
    decreases moves.len(),
{
    lemma_beat_shapes_len(moves, x, settings);
    lemma_beat_shapes_len(moves.drop_last(), x, settings);
    if k < moves.len() - 1 {
        lemma_beat_shapes_at(moves.drop_last(), x, settings, k, j);
    }
}

/// A run gives four shapes for every entity of every beat.
pub proof fn lemma_run_shapes_len(story: Seq<Seq<Seq<Seq<char>>>>, settings: Settings)
    ensures
        run_shapes(story, settings).len() == 4 * story_count(story),
    decreases story.len(),
{
    if story.len() > 0 {
        lemma_run_shapes_len(story.drop_last(), settings);
        lemma_transitions_len(
            run_tracks(story.drop_last(), settings.spacing),
            beat_slots(story.last(), settings.spacing),
        );
        lemma_slots_len(story.last(), settings.spacing);
        lemma_beat_shapes_len(
            last_moves(story, settings.spacing),
            cursor_at(settings, story.len() - 1),
            settings,
        );
    }
}

/// Where the four shapes of the move `k` of beat `b` begin among the shapes
/// of the run.
pub open spec fn shape_base(story: Seq<Seq<Seq<Seq<char>>>>, b: int, k: int) -> int {
    4 * (story_count(story.take(b)) + k)
}

/// The shapes of the move `k` of beat `b` stand together in the run's shapes,
/// after those of all moves before it, and their curves start at the cursor
/// of beat `b`.
pub proof fn lemma_run_shapes_at(
    story: Seq<Seq<Seq<Seq<char>>>>,
    settings: Settings,
    b: int,
    k: int,
    j: int,
)
    requires
        0 <= b < story.len(),
        0 <= k < entity_count(story[b]),
        0 <= j < 4,
    ensures
        0 <= shape_base(story, b, k) + j < run_shapes(story, settings).len(),
        last_moves(story.take(b + 1), settings.spacing).len() == entity_count(story[b]),
        run_shapes(story, settings)[shape_base(story, b, k) + j] == shapes_of(
            last_moves(story.take(b + 1), settings.spacing)[k],
            cursor_at(settings, b),
            settings.curve_span as int,
            settings.straight_span as int,
            settings.stroke_width as int,
        )[j],
    decreases story.len(),
{
    let head = story.drop_last();
    lemma_run_shapes_len(story, settings);
    lemma_run_shapes_len(head, settings);
    if b == story.len() - 1 {
        assert(story.take(b) =~= head);
        assert(story.take(b + 1) =~= story);
        let moves = last_moves(story, settings.spacing);
        lemma_transitions_len(
            run_tracks(head, settings.spacing),
            beat_slots(story.last(), settings.spacing),
        );
        lemma_slots_len(story.last(), settings.spacing);
        lemma_beat_shapes_at(moves, cursor_at(settings, b), settings, k, j);
    } else {
        lemma_run_shapes_at(head, settings, b, k, j);
        assert(head.take(b) =~= story.take(b));
        assert(head.take(b + 1) =~= story.take(b + 1));
    }
}

/// A longer prefix of the story lists at least as many entities, and one more
/// beat adds the entities that it lists.
pub proof fn lemma_story_count_monotone(story: Seq<Seq<Seq<Seq<char>>>>, a: int, b: int)
    requires
        0 <= a <= b <= story.len(),
    ensures
        story_count(story.take(a)) <= story_count(story.take(b)),
        a < b ==> story_count(story.take(a)) + entity_count(story[a]) <= story_count(story.take(b)),
    decreases b - a,
{
    if a < b {
        assert(story.take(b).drop_last() =~= story.take(b - 1));
        lemma_story_count_monotone(story, a, b - 1);
    }
}

/// The shapes of two different moves do not overlap in the run's shapes: the
/// four of the earlier move end before the four of the later move begin.
pub proof fn lemma_shape_places_apart(
    story: Seq<Seq<Seq<Seq<char>>>>,
    b1: int,
    k1: int,
    b2: int,
    k2: int,
)
    requires
        0 <= b1 <= b2 < story.len(),
        0 <= k1 < entity_count(story[b1]),
        0 <= k2 < entity_count(story[b2]),
        b1 < b2 || k1 < k2,
    ensures
        shape_base(story, b1, k1) + 4 <= shape_base(story, b2, k2),
{
    lemma_story_count_monotone(story, b1, b2);
}

/// One pair for every occurrence: for the entity `e` of group `g` of beat
/// `b`, the run holds, at a place of its own, a halo and a curve and then a
/// halo and a segment. The curve starts at the beat's cursor and leads to the
/// entity's slot; the segment rests at the slot's height; both are drawn in
/// the colour of the entity's move. The run holds no other shapes.
pub proof fn lemma_pair_per_occurrence(
    story: Seq<Seq<Seq<Seq<char>>>>,
    settings: Settings,
    b: int,
    g: int,
    e: int,
)
    requires
        0 <= b < story.len(),
        0 <= g < story[b].len(),
        0 <= e < story[b][g].len(),
    ensures
        run_shapes(story, settings).len() == 4 * story_count(story),
        ({
            let k = slot_index(story[b], g, e);
            let base = shape_base(story, b, k);
            let m = last_moves(story.take(b + 1), settings.spacing)[k];
            let x = cursor_at(settings, b);
            let curve = curve_of(m, x, settings.curve_span as int);
            let segment = segment_of(m, x, settings.curve_span as int, settings.straight_span as int);
            let line = line_stroke(m.color, settings.stroke_width as int);
            let under = halo_stroke(settings.stroke_width as int);
            &&& 0 <= k < entity_count(story[b])
            &&& 0 <= base && base + 4 <= run_shapes(story, settings).len()
            &&& m.entity == story[b][g][e]
            &&& m.new_y == slot_y(settings.spacing, g, k)
            &&& run_shapes(story, settings)[base] == (Primitive { shape: curve, stroke: under, halo: true })
            &&& run_shapes(story, settings)[base + 1] == (Primitive {
                shape: curve,
                stroke: line,
                halo: false,
            })
            &&& run_shapes(story, settings)[base + 2] == (Primitive {
                shape: segment,
                stroke: under,
                halo: true,
            })
            &&& run_shapes(story, settings)[base + 3] == (Primitive {
                shape: segment,
                stroke: line,
                halo: false,
            })
        }),
{
    let k = slot_index(story[b], g, e);
    lemma_run_shapes_len(story, settings);
    lemma_slot_at(story[b], settings.spacing, g, e);
    lemma_run_shapes_at(story, settings, b, k, 0);
    lemma_run_shapes_at(story, settings, b, k, 1);
    lemma_run_shapes_at(story, settings, b, k, 2);
    lemma_run_shapes_at(story, settings, b, k, 3);
    assert(story.take(b + 1).drop_last() =~= story.take(b));
    assert(story.take(b + 1).last() == story[b]);
    lemma_transition_at(
        run_tracks(story.take(b), settings.spacing),
        beat_slots(story[b], settings.spacing),
        k,
    );
}

} // verus!
