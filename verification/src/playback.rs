//! Registry of the songs that are currently being played.

use std::collections::HashSet;
use vstd::prelude::*;

use crate::domain::SongId;

verus! {

broadcast use vstd::std_specs::hash::group_hash_axioms;

/// The playing set after the marks `marks` (a song id, and whether it was
/// marked playing or stopped), applied in order to `played`.
pub open spec fn after_marks(played: Set<SongId>, marks: Seq<(SongId, bool)>) -> Set<SongId>
    decreases marks.len(),
{
    if marks.len() == 0 {
        played
    } else if marks.last().1 {
        after_marks(played, marks.drop_last()).insert(marks.last().0)
    } else {
        after_marks(played, marks.drop_last()).remove(marks.last().0)
    }
}

/// The set of songs some client is playing right now.
pub struct Playback {
    playing: HashSet<SongId>,
}

impl View for Playback {
    type V = Set<SongId>;

    closed spec fn view(&self) -> Set<SongId> {
        self.playing@
    }
}

impl Playback {
    /// An empty registry: nothing is playing.
    pub fn new() -> (r: Self)
        ensures
            r@ == Set::<SongId>::empty(),
    {
        Playback { playing: HashSet::new() }
    }

    /// Records that `id` is playing.
    pub fn mark_playing(&mut self, id: &SongId)
        ensures
            final(self)@ == old(self)@.insert(*id),
    {
        self.playing.insert(*id);
    }

    /// Records that `id` stopped playing.
    pub fn mark_stopped(&mut self, id: &SongId)
        ensures
            final(self)@ == old(self)@.remove(*id),
    {
        self.playing.remove(id);
    }

    /// A song marked playing is playing, so removing it is refused; once
    /// marked stopped it is not, so removing it goes through.
    pub proof fn lemma_play_then_stop(played: Set<SongId>, id: SongId)
        ensures
            played.insert(id).contains(id),
            !played.insert(id).remove(id).contains(id),
    {
    }

    /// Starting from an empty registry, a song is playing after a sequence
    /// of marks exactly when it was marked playing at some point and not
    /// marked stopped after that.
    pub proof fn lemma_marks(marks: Seq<(SongId, bool)>, id: SongId)
        ensures
            after_marks(Set::empty(), marks).contains(id) <==> exists|i: int|
                0 <= i < marks.len() && #[trigger] marks[i] == (id, true) && forall|j: int|
                    i < j < marks.len() ==> #[trigger] marks[j] != (id, false),
        decreases marks.len(),
    {
        if marks.len() > 0 {
            let init = marks.drop_last();
            let n = marks.len() - 1;
            Self::lemma_marks(init, id);
            let last = marks[n];
            if last == (id, true) {
                assert(marks[n] == (id, true));
            } else if last == (id, false) {
                assert forall|i: int| 0 <= i < marks.len() && #[trigger] marks[i] == (id, true) implies exists|
                    j: int,
                | i < j < marks.len() && #[trigger] marks[j] == (id, false) by {
                    assert(marks[n] == (id, false));
                }
            } else {
                if after_marks(Set::empty(), marks).contains(id) {
                    let i = choose|i: int|
                        0 <= i < init.len() && #[trigger] init[i] == (id, true) && forall|j: int|
                            i < j < init.len() ==> #[trigger] init[j] != (id, false);
                    assert(marks[i] == (id, true));
                    assert forall|j: int| i < j < marks.len() implies #[trigger] marks[j] != (id, false) by {
                        if j < n {
                            assert(init[j] == marks[j]);
                        }
                    }
                }
                if exists|i: int|
                    0 <= i < marks.len() && #[trigger] marks[i] == (id, true) && forall|j: int|
                        i < j < marks.len() ==> #[trigger] marks[j] != (id, false) {
                    let i = choose|i: int|
                        0 <= i < marks.len() && #[trigger] marks[i] == (id, true) && forall|j: int|
                            i < j < marks.len() ==> #[trigger] marks[j] != (id, false);
                    assert(i < n);
                    assert(init[i] == (id, true));
                    assert forall|j: int| i < j < init.len() implies #[trigger] init[j] != (id, false) by {
                        assert(marks[j] == init[j]);
                    }
                }
            }
        }
    }

    /// Whether `id` is playing.
    pub fn is_playing(&self, id: &SongId) -> (r: bool)
        ensures
            r == self@.contains(*id),
    {
        self.playing.contains(id)
    }
}

} // verus!
