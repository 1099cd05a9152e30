//! The layout state that is carried from beat to beat: for every entity seen so
//! far, its colour and the vertical position at which its line currently rests.
use vstd::prelude::*;
use crate::color::{Color, HUE_TURN, auto_color, color_at, lemma_colors_distinct};

verus! {

/// One entity's line: its name, its colour and where it rests.
#[derive(Clone, Debug, PartialEq, Eq)]
pub struct Track {
    pub name: String,
    pub color: Color,
    pub y: i64,
}

/// The mathematical value of a `Track`.
pub struct TrackView {
    pub name: Seq<char>,
    pub color: Color,
    pub y: int,
}

impl View for Track {
    type V = TrackView;

    open spec fn view(&self) -> TrackView {
        TrackView { name: self.name@, color: self.color, y: self.y as int }
    }
}

/// The move of one entity in one beat: from where its line rested to where it
/// rests now.
#[derive(Clone, Debug, PartialEq, Eq)]
pub struct Transition {
    pub entity: String,
    pub previous_y: i64,
    pub new_y: i64,
    pub color: Color,
}

/// The mathematical value of a `Transition`.
pub struct TransitionView {
    pub entity: Seq<char>,
    pub previous_y: int,
    pub new_y: int,
    pub color: Color,
}

impl View for Transition {
    type V = TransitionView;

    open spec fn view(&self) -> TransitionView {
        TransitionView {
            entity: self.entity@,
            previous_y: self.previous_y as int,
            new_y: self.new_y as int,
            color: self.color,
        }
    }
}

/// Whether an entity of this name has a track.
pub open spec fn has_track(tracks: Seq<TrackView>, name: Seq<char>) -> bool {
    exists|i: int| 0 <= i < tracks.len() && (#[trigger] tracks[i]).name == name
}

/// The place of the named entity's track, for an entity that has one.
pub open spec fn track_index(tracks: Seq<TrackView>, name: Seq<char>) -> int {
    choose|i: int| 0 <= i < tracks.len() && (#[trigger] tracks[i]).name == name
}

/// The colour of the named entity, for an entity that has a track.
pub open spec fn color_of(tracks: Seq<TrackView>, name: Seq<char>) -> Color {
    tracks[track_index(tracks, name)].color
}

/// The height at which the named entity rests, for an entity that has a track.
pub open spec fn height_of(tracks: Seq<TrackView>, name: Seq<char>) -> int {
    tracks[track_index(tracks, name)].y
}

/// No entity has two tracks, and the track at place `i` has the colour of the
/// entity introduced after `i` others.
pub open spec fn tracks_wf(tracks: Seq<TrackView>) -> bool {
    &&& forall|i: int, j: int|
        0 <= i < j < tracks.len() ==> (#[trigger] tracks[i]).name != (#[trigger] tracks[j]).name
    &&& forall|i: int| 0 <= i < tracks.len() ==> (#[trigger] tracks[i]).color == color_at(i as nat)
}

/// Puts the named entity at height `y`. A known entity keeps its colour and
/// travels from where it rested; a new one is appended with the next colour and
/// appears in place, without travel.
pub open spec fn place(tracks: Seq<TrackView>, name: Seq<char>, y: int) -> (
    Seq<TrackView>,
    TransitionView,
) {
    if has_track(tracks, name) {
        let i = track_index(tracks, name);
        (
            tracks.update(i, TrackView { name: name, color: tracks[i].color, y: y }),
            TransitionView { entity: name, previous_y: tracks[i].y, new_y: y, color: tracks[i].color },
        )
    } else {
        let color = color_at(tracks.len());
        (
            tracks.push(TrackView { name: name, color: color, y: y }),
            TransitionView { entity: name, previous_y: y, new_y: y, color: color },
        )
    }
}

/// In well-formed tracks a name is found at one place only.
pub proof fn lemma_track_index_unique(tracks: Seq<TrackView>, i: int)
    requires
        tracks_wf(tracks),
        0 <= i < tracks.len(),
    ensures
        has_track(tracks, tracks[i].name),
        track_index(tracks, tracks[i].name) == i,
{
    let name = tracks[i].name;
    let k = track_index(tracks, name);
    assert(0 <= k < tracks.len() && tracks[k].name == name);
    if k < i {
        assert(tracks[k].name != tracks[i].name);
    } else if i < k {
        assert(tracks[i].name != tracks[k].name);
    }
}

/// Placing an entity keeps the tracks well formed, keeps every track in its
/// place with its name and colour, and moves no track but the named one.
pub proof fn lemma_place_wf(tracks: Seq<TrackView>, name: Seq<char>, y: int)
    requires
        tracks_wf(tracks),
    ensures
        tracks_wf(place(tracks, name, y).0),
        place(tracks, name, y).0.len() >= tracks.len(),
        has_track(place(tracks, name, y).0, name),
        forall|i: int|
            0 <= i < tracks.len() ==> {
                &&& (#[trigger] place(tracks, name, y).0[i]).name == tracks[i].name
                &&& place(tracks, name, y).0[i].color == tracks[i].color
                &&& tracks[i].name != name ==> place(tracks, name, y).0[i].y == tracks[i].y
            },
{
    let after = place(tracks, name, y).0;
    if has_track(tracks, name) {
        let k = track_index(tracks, name);
        assert(after[k].name == name);
    } else {
        assert(after[tracks.len() as int].name == name);
        assert forall|i: int, j: int| 0 <= i < j < after.len() implies (#[trigger] after[i]).name != (
        #[trigger] after[j]).name by {
            if j == tracks.len() {
                assert(tracks[i].name != name);
            }
        }
    }
}

/// Colour distinctness: among the first `HUE_TURN` entities of a run, two
/// different entities never have the same colour.
pub proof fn lemma_track_colors_distinct(tracks: Seq<TrackView>, i: int, j: int)
    requires
        tracks_wf(tracks),
        0 <= i < tracks.len(),
        0 <= j < tracks.len(),
        i != j,
        tracks.len() <= HUE_TURN,
    ensures
        tracks[i].color != tracks[j].color,
{
    lemma_colors_distinct(i as nat, j as nat);
}

/// The tracks of all entities seen so far, in the order of their first
/// appearance.
#[derive(Clone, Debug)]
pub struct TrackState {
    tracks: Vec<Track>,
}

impl View for TrackState {
    type V = Seq<TrackView>;

    closed spec fn view(&self) -> Seq<TrackView> {
        Seq::new(self.tracks@.len(), |i: int| self.tracks@[i]@)
    }
}

impl TrackState {
    /// The invariant of the state: see `tracks_wf`.
    pub open spec fn wf(&self) -> bool {
        tracks_wf(self@)
    }

    /// The state at the start of a run: no entity has been seen.
    pub fn new() -> (s: Self)
        ensures
            s@ == Seq::<TrackView>::empty(),
            s.wf(),
    {
        let s = TrackState { tracks: Vec::new() };
        assert(s@ =~= Seq::<TrackView>::empty());
        s
    }

    /// The number of entities seen so far.
    pub fn len(&self) -> (n: usize)
        ensures
            n == self@.len(),
    {
        self.tracks.len()
    }

    /// The place of the named entity's track, if it has one.
    pub fn find(&self, name: &String) -> (r: Option<usize>)
        ensures
            match r {
                Some(i) => i < self@.len() && self@[i as int].name == name@,
                None => !has_track(self@, name@),
            },
            self.wf() && has_track(self@, name@) ==> r == Some(track_index(self@, name@) as usize),
    {
        let mut i: usize = 0;
        while i < self.tracks.len()
            invariant
                i <= self.tracks@.len(),
                forall|k: int| 0 <= k < i ==> (#[trigger] self@[k]).name != name@,
            decreases self.tracks@.len() - i,
        {
            if self.tracks[i].name == *name {
                proof {
                    if self.wf() {
                        lemma_track_index_unique(self@, i as int);
                    }
                }
                return Some(i);
            }
            i += 1;
        }
        None
    }

    /// Where the named entity's line rests, if the entity has been seen.
    pub fn position(&self, name: &String) -> (r: Option<i64>)
        ensures
            r is Some <==> has_track(self@, name@),
            self.wf() && has_track(self@, name@) ==> r is Some && r.unwrap() as int == height_of(
                self@,
                name@,
            ),
    {
        match self.find(name) {
            Some(i) => Some(self.tracks[i].y),
            None => None,
        }
    }

    /// The colour of the named entity, if the entity has been seen.
    pub fn color(&self, name: &String) -> (r: Option<Color>)
        ensures
            r is Some <==> has_track(self@, name@),
            self.wf() && has_track(self@, name@) ==> r == Some(color_of(self@, name@)),
    {
        match self.find(name) {
            Some(i) => Some(self.tracks[i].color),
            None => None,
        }
    }

    /// Puts the named entity at height `y` and reports its move: see `place`.
    pub fn place(&mut self, name: &String, y: i64) -> (t: Transition)
        requires
            old(self).wf(),
        ensures
            final(self).wf(),
            final(self)@ == place(old(self)@, name@, y as int).0,
            t@ == place(old(self)@, name@, y as int).1,
    {
        proof {
            lemma_place_wf(self@, name@, y as int);
        }
        match self.find(name) {
            Some(i) => {
                let previous_y: i64 = self.tracks[i].y;
                let color = self.tracks[i].color;
                self.tracks.set(i, Track { name: name.clone(), color: color, y: y });
                assert(self@ =~= place(old(self)@, name@, y as int).0);
                Transition { entity: name.clone(), previous_y: previous_y, new_y: y, color: color }
            },
            None => {
                let color = auto_color(self.tracks.len());
                self.tracks.push(Track { name: name.clone(), color: color, y: y });
                assert(self@ =~= place(old(self)@, name@, y as int).0);
                Transition { entity: name.clone(), previous_y: y, new_y: y, color: color }
            },
        }
    }
}

} // verus!
