//! The player's state: which track plays, whether it plays, and the shuffle
//! queue; and what selecting, skipping and deleting a track do to it.
use vstd::prelude::*;
use crate::clock::since_unix_epoch;

verus! {

/// The player's state.  `queue` is the shuffle order still to be played from
/// position `pos`; `visual_selection` counts how often a picture was chosen.
pub struct PlayerState {
    pub current: Option<usize>,
    pub playing: bool,
    pub shuffle: bool,
    pub queue: Vec<usize>,
    pub pos: usize,
    pub visual_selection: u64,
}

/// One step of the generator that drives the shuffle:
/// `seed * 1103515245 + 12345`, wrapping.
pub open spec fn lcg_step(seed: usize) -> usize {
    ((seed as int * 1103515245 + 12345) % (usize::MAX as int + 1)) as usize
}

/// `s` with the elements at `i` and `j` exchanged.
pub open spec fn swap(s: Seq<usize>, i: int, j: int) -> Seq<usize> {
    s.update(i, s[j]).update(j, s[i])
}

/// The Fisher-Yates passes for positions `i` down to 1.
pub open spec fn shuffle_from(s: Seq<usize>, seed: usize, i: int) -> Seq<usize>
    decreases i,
{
    if i < 1 {
        s
    } else {
        let next = lcg_step(seed);
        shuffle_from(swap(s, i, (next % ((i + 1) as usize)) as int), next, i - 1)
    }
}

/// `s` shuffled from `seed`.
pub open spec fn shuffled(s: Seq<usize>, seed: usize) -> Seq<usize> {
    shuffle_from(s, seed, s.len() - 1)
}

/// The track numbers `0..len` without `skip`.
pub open spec fn all_but(len: nat, skip: nat) -> Seq<usize> {
    if skip < len {
        Seq::new((len - 1) as nat, |i: int| (if i < skip { i } else { i + 1 }) as usize)
    } else {
        Seq::new(len, |i: int| i as usize)
    }
}

/// The track numbers `0..len`.
pub open spec fn all_tracks(len: nat) -> Seq<usize> {
    Seq::new(len, |i: int| i as usize)
}

/// The next track in list order, or the one before, wrapping around.
pub open spec fn step_index(current: Option<usize>, len: nat, forward: bool) -> nat {
    match current {
        Some(c) => if forward {
            ((c + 1) % (len as int)) as nat
        } else {
            ((c + len - 1) % (len as int)) as nat
        },
        None => 0,
    }
}

/// Whether the shuffle queue must be drawn anew before the next track.
pub open spec fn needs_new_queue(queue: Seq<usize>, pos: nat) -> bool {
    queue.len() == 0 || pos >= queue.len()
}

/// The queue drawn anew: every track but the current one when there was no
/// queue, every track when the old one is used up.
pub open spec fn new_queue(queue: Seq<usize>, current: Option<usize>, len: nat, seed: usize) -> Seq<
    usize,
> {
    let c = match current {
        Some(c) => c,
        None => 0,
    };
    if queue.len() == 0 {
        shuffled(all_but(len, c as nat), seed)
    } else {
        shuffled(all_tracks(len), seed)
    }
}

/// The picture counter after one more pick: one up, wrapping to zero.
pub open spec fn next_salt(v: u64) -> u64 {
    if v == u64::MAX {
        0
    } else {
        (v + 1) as u64
    }
}

/// The shuffle queue that the next track is taken from: the current one, or a
/// new one drawn from `seed` when the current one is empty or used up.
pub open spec fn next_queue(state: PlayerState, len: nat, seed: usize) -> Seq<usize> {
    if needs_new_queue(state.queue@, state.pos as nat) {
        new_queue(state.queue@, state.current, len, seed)
    } else {
        state.queue@
    }
}

/// The position in `next_queue` of the next track.
pub open spec fn next_pos(state: PlayerState) -> int {
    if needs_new_queue(state.queue@, state.pos as nat) {
        0
    } else {
        state.pos as int
    }
}

/// What moving on in shuffle order from `before` does, with `seed` driving a
/// new shuffle: the queue and position move on, and the track taken from the
/// queue plays when it is in the list of `len` tracks.
pub open spec fn shuffle_step(
    before: PlayerState,
    after: PlayerState,
    r: Option<u64>,
    len: nat,
    seed: usize,
) -> bool {
    let q = next_queue(before, len, seed);
    let p = next_pos(before);
    let idx = q[p];
    &&& after.queue@ == q
    &&& after.pos == p + 1
    &&& after.shuffle == before.shuffle
    &&& idx < len ==> after.current == Some(idx) && after.playing && after.visual_selection
        == next_salt(before.visual_selection) && r == Some(after.visual_selection)
    &&& idx >= len ==> after.current == before.current && after.playing == before.playing
        && after.visual_selection == before.visual_selection && r is None
}

/// The current track, if any, is one of the `len` tracks of the list.
pub open spec fn current_in_list(state: PlayerState, len: nat) -> bool {
    state.current matches Some(c) ==> c < len
}

/// Whether moving on to the next track would fail: a fresh shuffle queue would
/// be empty, or the index arithmetic would overflow.
pub open spec fn next_track_fails(state: PlayerState, len: nat, forward: bool) -> bool {
    if state.shuffle {
        let c = match state.current {
            Some(c) => c,
            None => 0,
        };
        state.queue@.len() == 0 && len == 1 && c == 0
    } else {
        match state.current {
            Some(c) => if forward {
                c >= usize::MAX
            } else {
                c + len > usize::MAX
            },
            None => false,
        }
    }
}

impl PlayerState {
    /// Nothing selected, nothing playing, no queue.
    pub fn new(shuffle: bool) -> (r: PlayerState)
        ensures
            r.current is None,
            !r.playing,
            r.shuffle == shuffle,
            r.queue@.len() == 0,
            r.pos == 0,
            r.visual_selection == 0,
    {
        PlayerState {
            current: None,
            playing: false,
            shuffle,
            queue: Vec::new(),
            pos: 0,
            visual_selection: 0,
        }
    }

    /// Starts playing track `idx` of a list of `len` tracks.  Returns the
    /// number that picks the track's picture, or nothing for a track that is
    /// not in the list, which changes nothing.
    pub fn activate_track(&mut self, idx: usize, len: usize) -> (r: Option<u64>)
        ensures
            idx < len ==> {
                &&& r == Some(final(self).visual_selection)
                &&& final(self).visual_selection == next_salt(old(self).visual_selection)
                &&& final(self).current == Some(idx)
                &&& final(self).playing
                &&& final(self).shuffle == old(self).shuffle
                &&& final(self).queue@ == old(self).queue@
                &&& final(self).pos == old(self).pos
            },
            idx >= len ==> r is None && *final(self) == *old(self),
            current_in_list(*old(self), len as nat) ==> current_in_list(*final(self), len as nat),
    {
        if idx < len {
            let salt = self.visual_selection.wrapping_add(1);
            self.visual_selection = salt;
            self.current = Some(idx);
            self.playing = true;
            Some(salt)
        } else {
            None
        }
    }

    /// The user picks track `idx`: the shuffle queue starts over and the track
    /// plays.
    pub fn select_track(&mut self, idx: usize, len: usize) -> (r: Option<u64>)
        ensures
            final(self).queue@.len() == 0,
            final(self).pos == 0,
            final(self).shuffle == old(self).shuffle,
            idx < len ==> r == Some(final(self).visual_selection) && final(self).current == Some(
                idx,
            ) && final(self).playing,
            idx < len ==> final(self).visual_selection == next_salt(old(self).visual_selection),
            idx >= len ==> r is None && final(self).current == old(self).current
                && final(self).playing == old(self).playing && final(self).visual_selection == old(
                self,
            ).visual_selection,
            current_in_list(*old(self), len as nat) ==> current_in_list(*final(self), len as nat),
    {
        self.queue = Vec::new();
        self.pos = 0;
        self.activate_track(idx, len)
    }

    /// The track to play after the current one in a list of `len` tracks, with
    /// `seed` driving a new shuffle: the next in the shuffle queue, drawing a
    /// new queue when needed, or the next (or previous) in list order.
    pub fn next_track(&mut self, len: usize, forward: bool, seed: usize) -> (r: Option<usize>)
        requires
            !next_track_fails(*old(self), len as nat, forward),
        ensures
            len == 0 ==> r is None && *final(self) == *old(self),
            len > 0 && !old(self).shuffle ==> r == Some(
                step_index(old(self).current, len as nat, forward) as usize,
            ) && *final(self) == *old(self),
            len > 0 && !old(self).shuffle ==> r.unwrap() < len,
            len > 0 && old(self).shuffle ==> {
                let q = next_queue(*old(self), len as nat, seed);
                let p = next_pos(*old(self));
                &&& final(self).queue@ == q
                &&& final(self).pos == p + 1
                &&& r == Some(q[p])
                &&& final(self).current == old(self).current
                &&& final(self).playing == old(self).playing
                &&& final(self).shuffle == old(self).shuffle
                &&& final(self).visual_selection == old(self).visual_selection
            },
    {
        if len == 0 {
            return None;
        }
        if !self.shuffle {
            return match self.current {
                Some(c) => {
                    if forward {
                        Some((c + 1) % len)
                    } else {
                        Some((c + len - 1) % len)
                    }
                },
                None => Some(0),
            };
        }
        let current = match self.current {
            Some(c) => c,
            None => 0,
        };
        if self.queue.len() == 0 || self.pos >= self.queue.len() {
            let base = if self.queue.len() == 0 {
                tracks_except(len, current)
            } else {
                tracks_except(len, len)
            };
            proof {
                if self.queue@.len() != 0 {
                    assert(all_but(len as nat, len as nat) == all_tracks(len as nat));
                }
            }
            let q = shuffle(base, seed);
            self.queue = q;
            self.pos = 0;
        }
        proof {
            if needs_new_queue(old(self).queue@, old(self).pos as nat) {
                let c = match old(self).current {
                    Some(c) => c,
                    None => 0,
                };
                if old(self).queue@.len() == 0 {
                    lemma_shuffled_permutes(all_but(len as nat, c as nat), seed);
                } else {
                    lemma_shuffled_permutes(all_tracks(len as nat), seed);
                }
            }
        }
        let idx = self.queue[self.pos];
        self.pos = self.pos + 1;
        Some(idx)
    }

    /// Moves on to the next (or previous) track and plays it (see
    /// `next_track` and `activate_track`).  A new shuffle is drawn from the
    /// clock.
    pub fn play_next(&mut self, len: usize, forward: bool) -> (r: Option<u64>)
        requires
            !next_track_fails(*old(self), len as nat, forward),
        ensures
            len == 0 ==> r is None && *final(self) == *old(self),
            len > 0 && !old(self).shuffle ==> r is Some && final(self).current == Some(
                step_index(old(self).current, len as nat, forward) as usize,
            ) && final(self).playing && final(self).queue@ == old(self).queue@ && final(self).pos
                == old(self).pos,
            len > 0 && !old(self).shuffle ==> final(self).visual_selection == next_salt(
                old(self).visual_selection,
            ) && r == Some(final(self).visual_selection),
            current_in_list(*old(self), len as nat) ==> current_in_list(*final(self), len as nat),
            len > 0 && old(self).shuffle ==> exists|seed: usize|
                #[trigger] shuffle_step(*old(self), *final(self), r, len as nat, seed),
            len > 0 && old(self).shuffle && !needs_new_queue(old(self).queue@, old(self).pos as nat)
                ==> final(self).queue@ == old(self).queue@,
            len > 0 && old(self).shuffle && needs_new_queue(old(self).queue@, old(self).pos as nat)
                ==> r is Some && final(self).playing && (final(self).current matches Some(c)
                && c < len),
    {
        let (secs, nanos) = since_unix_epoch();
        let seed = crate::clock::nanos_of(secs, nanos) as usize;
        let ghost before = *self;
        let next = self.next_track(len, forward, seed);
        let r = match next {
            Some(idx) => self.activate_track(idx, len),
            None => None,
        };
        proof {
            if len > 0 && before.shuffle {
                assert(shuffle_step(before, *self, r, len as nat, seed));
                if needs_new_queue(before.queue@, before.pos as nat) {
                    lemma_fresh_queue_starts_in_list(before, len as nat, forward, seed);
                }
            }
        }
        r
    }

    /// Track `idx` of a list of `len` tracks is deleted.  Returns whether it
    /// was in the list.  Deleting the current track stops playback; deleting
    /// one before it moves the current index down with it.
    pub fn delete_track(&mut self, idx: usize, len: usize) -> (r: bool)
        ensures
            r == (idx < len),
            !r ==> *final(self) == *old(self),
            r ==> final(self).current == index_after_delete(old(self).current, idx),
            r ==> final(self).playing == (old(self).playing && old(self).current != Some(idx)),
            final(self).queue@ == old(self).queue@,
            final(self).pos == old(self).pos,
            final(self).shuffle == old(self).shuffle,
            final(self).visual_selection == old(self).visual_selection,
            r && current_in_list(*old(self), len as nat) ==> current_in_list(
                *final(self),
                (len - 1) as nat,
            ),
    {
        if idx >= len {
            return false;
        }
        match self.current {
            Some(cur) => {
                if cur == idx {
                    self.current = None;
                    self.playing = false;
                } else if cur > idx {
                    self.current = Some(cur - 1);
                }
            },
            None => {},
        }
        true
    }

    /// After the song folder is scanned anew: nothing selected, nothing
    /// playing, no shuffle queue.  The shuffle setting and the picture counter
    /// stay.
    pub fn reset(&mut self)
        ensures
            final(self).current is None,
            !final(self).playing,
            final(self).queue@.len() == 0,
            final(self).pos == 0,
            final(self).shuffle == old(self).shuffle,
            final(self).visual_selection == old(self).visual_selection,
    {
        self.current = None;
        self.playing = false;
        self.queue = Vec::new();
        self.pos = 0;
    }

    /// Deletes track `idx` from the list `tracks` (see `delete_track`) and
    /// returns it; nothing changes when there is no such track.
    pub fn remove_track<T>(&mut self, tracks: &mut Vec<T>, idx: usize) -> (r: Option<T>)
        ensures
            r is Some == (idx < old(tracks)@.len()),
            r matches Some(t) ==> t == old(tracks)@[idx as int] && final(tracks)@ == old(
                tracks,
            )@.remove(idx as int),
            r is None ==> final(tracks)@ == old(tracks)@ && *final(self) == *old(self),
            r is Some ==> final(self).current == index_after_delete(old(self).current, idx),
            r is Some ==> final(self).playing == (old(self).playing && old(self).current != Some(
                idx,
            )),
            final(self).queue@ == old(self).queue@,
            final(self).pos == old(self).pos,
            final(self).shuffle == old(self).shuffle,
            final(self).visual_selection == old(self).visual_selection,
            current_in_list(*old(self), old(tracks)@.len()) ==> current_in_list(
                *final(self),
                final(tracks)@.len(),
            ),
    {
        if self.delete_track(idx, tracks.len()) {
            Some(tracks.remove(idx))
        } else {
            None
        }
    }
}

/// Where the current track is after track `idx` is taken out of the list.
pub open spec fn index_after_delete(current: Option<usize>, idx: usize) -> Option<usize> {
    match current {
        Some(c) => if c == idx {
            None
        } else if c > idx {
            Some((c - 1) as usize)
        } else {
            Some(c)
        },
        None => None,
    }
}

/// The track numbers below `len` other than `skip`, in order.
fn tracks_except(len: usize, skip: usize) -> (r: Vec<usize>)
    ensures
        r@ == all_but(len as nat, skip as nat),
{
    let mut r: Vec<usize> = Vec::new();
    let mut i: usize = 0;
    while i < len
        invariant
            i <= len,
            r@ =~= Seq::new(
                (if skip < i {
                    i - 1
                } else {
                    i as int
                }) as nat,
                |k: int| (if k < skip { k } else { k + 1 }) as usize,
            ),
        decreases len - i,
    {
        if i != skip {
            r.push(i);
        }
        i = i + 1;
    }
    if skip >= len {
        assert(r@ =~= all_but(len as nat, skip as nat));
    }
    r
}

/// A queue drawn anew starts with a track of the list.
proof fn lemma_fresh_queue_starts_in_list(state: PlayerState, len: nat, forward: bool, seed: usize)
    requires
        state.shuffle,
        len > 0,
        len <= usize::MAX,
        needs_new_queue(state.queue@, state.pos as nat),
        !next_track_fails(state, len, forward),
    ensures
        next_queue(state, len, seed).len() > 0,
        next_queue(state, len, seed)[0] < len,
{
    let c = match state.current {
        Some(c) => c,
        None => 0,
    };
    let base = if state.queue@.len() == 0 {
        all_but(len, c as nat)
    } else {
        all_tracks(len)
    };
    assert(base.len() > 0);
    lemma_shuffled_permutes(base, seed);
    lemma_new_queue_holds_each_track_once(state.queue@, state.current, len, seed);
    let q = next_queue(state, len, seed);
    assert(q == shuffled(base, seed));
    assert(q.contains(q[0]));
}

/// Shuffles `s` from `seed` (see `shuffled`).
fn shuffle(s: Vec<usize>, seed: usize) -> (r: Vec<usize>)
    ensures
        r@ == shuffled(s@, seed),
{
    let mut v = s;
    if v.len() < 2 {
        return v;
    }
    let ghost seed0 = seed;
    let mut seed = seed;
    let mut i: usize = v.len() - 1;
    while i >= 1
        invariant
            i < v.len(),
            shuffled(s@, seed0) == shuffle_from(v@, seed, i as int),
        decreases i,
    {
        let ghost before = v@;
        let ghost old_seed = seed;
        seed = seed.wrapping_mul(1103515245).wrapping_add(12345);
        assert(seed == lcg_step(old_seed)) by (nonlinear_arith)
            requires
                seed == (((old_seed as int * 1103515245) % (usize::MAX as int + 1)) + 12345) % (
                usize::MAX as int + 1),
        ;
        let j = seed % (i + 1);
        let a = v[i];
        let b = v[j];
        v.set(i, b);
        v.set(j, a);
        assert(v@ == swap(before, i as int, j as int));
        i = i - 1;
    }
    v
}

// ---------------------------------------------------------------------------
// Laws
// ---------------------------------------------------------------------------

/// Two sequences hold the same elements, each as often: same length, same
/// elements, and no repeats in the second when the first has none.
pub open spec fn same_elements(s: Seq<usize>, t: Seq<usize>) -> bool {
    &&& t.len() == s.len()
    &&& forall|x: usize| t.contains(x) <==> s.contains(x)
    &&& s.no_duplicates() ==> t.no_duplicates()
}

proof fn lemma_swap_permutes(s: Seq<usize>, i: int, j: int)
    requires
        0 <= i < s.len(),
        0 <= j < s.len(),
    ensures
        same_elements(s, swap(s, i, j)),
{
    let t = swap(s, i, j);
    assert forall|x: usize| t.contains(x) <==> s.contains(x) by {
        if t.contains(x) {
            let k = choose|k: int| 0 <= k < t.len() && t[k] == x;
            if k == i {
                assert(s[j] == x);
            } else if k == j {
                assert(s[i] == x);
            } else {
                assert(s[k] == x);
            }
        }
        if s.contains(x) {
            let k = choose|k: int| 0 <= k < s.len() && s[k] == x;
            if k == i {
                assert(t[j] == x);
            } else if k == j {
                assert(t[i] == x);
            } else {
                assert(t[k] == x);
            }
        }
    }
    if s.no_duplicates() {
        assert forall|a: int, b: int| 0 <= a < t.len() && 0 <= b < t.len() && a != b implies t[a]
            != t[b] by {
            let sa = if a == i {
                j
            } else if a == j {
                i
            } else {
                a
            };
            let sb = if b == i {
                j
            } else if b == j {
                i
            } else {
                b
            };
            assert(t[a] == s[sa]);
            assert(t[b] == s[sb]);
        }
    }
}

proof fn lemma_shuffle_from_permutes(s: Seq<usize>, seed: usize, i: int)
    requires
        i < s.len(),
        s.len() <= usize::MAX,
    ensures
        same_elements(s, shuffle_from(s, seed, i)),
    decreases i,
{
    if i >= 1 {
        let next = lcg_step(seed);
        let d = (i + 1) as usize;
        assert(d == i + 1);
        assert(next % d < d) by (nonlinear_arith)
            requires
                d > 0,
        ;
        let j = (next % d) as int;
        let t = swap(s, i, j);
        lemma_swap_permutes(s, i, j);
        lemma_shuffle_from_permutes(t, next, i - 1);
    }
}

/// Shuffling keeps every element and adds none.
pub proof fn lemma_shuffled_permutes(s: Seq<usize>, seed: usize)
    requires
        s.len() <= usize::MAX,
    ensures
        same_elements(s, shuffled(s, seed)),
{
    if s.len() > 0 {
        lemma_shuffle_from_permutes(s, seed, s.len() - 1);
    }
}

/// A shuffle queue drawn anew holds each track of the list exactly once,
/// leaving out the current track when there was no queue before.
pub proof fn lemma_new_queue_holds_each_track_once(
    queue: Seq<usize>,
    current: Option<usize>,
    len: nat,
    seed: usize,
)
    requires
        len <= usize::MAX,
    ensures
        ({
            let q = new_queue(queue, current, len, seed);
            let c = match current {
                Some(c) => c,
                None => 0,
            };
            &&& q.no_duplicates()
            &&& forall|t: usize|
                q.contains(t) <==> (t < len && (queue.len() == 0 ==> t != c))
        }),
{
    let c = match current {
        Some(c) => c,
        None => 0,
    };
    let base = if queue.len() == 0 {
        all_but(len, c as nat)
    } else {
        all_tracks(len)
    };
    assert(base.no_duplicates());
    assert forall|t: usize| base.contains(t) <==> (t < len && (queue.len() == 0 ==> t != c)) by {
        if t < len && (queue.len() == 0 ==> t != c) {
            if queue.len() == 0 && c < len {
                let k: int = if t < c {
                    t as int
                } else {
                    t - 1
                };
                assert(base[k] == t);
            } else {
                assert(base[t as int] == t);
            }
        }
    }
    lemma_shuffled_permutes(base, seed);
}

/// In list order, going back from the next track returns to the current one.
pub proof fn lemma_step_back_undoes_step(c: usize, len: nat)
    requires
        c < len,
        len <= usize::MAX,
    ensures
        step_index(Some(step_index(Some(c), len, true) as usize), len, false) == c,
{
    let l = len as int;
    let n = step_index(Some(c), len, true);
    assert(n == (c + 1) % l);
    if c + 1 == l {
        assert((c + 1) % l == 0) by (nonlinear_arith)
            requires
                c + 1 == l,
                l > 0,
        ;
        assert((0 + l - 1) % l == l - 1) by (nonlinear_arith)
            requires
                l > 0,
        ;
    } else {
        assert((c + 1) % l == c + 1) by (nonlinear_arith)
            requires
                0 <= c + 1 < l,
        ;
        assert((c + 1 + l - 1) % l == c) by (nonlinear_arith)
            requires
                0 <= c < l,
        ;
    }
}

/// After a track is deleted from the list, the current index names the same
/// track as before, unless the current track itself was deleted.
pub proof fn lemma_delete_keeps_current_track<T>(tracks: Seq<T>, current: usize, idx: usize)
    requires
        idx < tracks.len(),
        current < tracks.len(),
        current != idx,
    ensures
        index_after_delete(Some(current), idx) matches Some(n) && n < tracks.len() - 1
            && tracks.remove(idx as int)[n as int] == tracks[current as int],
{
}

} // verus!
