//! A bounded cache of decoded frames.
use crate::frame::DecodedFrame;
use crate::path::{Components, ImagePath};
use std::sync::Arc;
use vstd::prelude::*;

verus! {

/// Decoded frames up to a limit of bytes. Where the limit is exceeded, the frame that has not been
/// used for the longest time goes first.
pub struct FrameCache {
    limit_bytes: usize,
    used_bytes: usize,
    /// From the least to the most recently used one.
    frames: Vec<Arc<DecodedFrame>>,
}

/// The bytes of all frames.
pub open spec fn total(frames: Seq<Arc<DecodedFrame>>) -> nat
    decreases frames.len(),
{
    if frames.len() == 0 {
        0
    } else {
        total(frames.drop_last()) + frames.last().pixels@.len()
    }
}

/// Whether no two frames have the same path.
pub open spec fn distinct(frames: Seq<Arc<DecodedFrame>>) -> bool {
    forall|i: int, j: int|
        0 <= i < j < frames.len() ==> (#[trigger] frames[i]).path.key() != (#[trigger] frames[j]).path.key()
}

/// Whether the frame at `i` is that of a path.
pub open spec fn found_at(frames: Seq<Arc<DecodedFrame>>, path: Components, i: int) -> bool {
    0 <= i < frames.len() && frames[i].path.key() == path
}

pub open spec fn holds(frames: Seq<Arc<DecodedFrame>>, path: Components) -> bool {
    exists|i: int| found_at(frames, path, i)
}

/// Where the frame of a path is.
pub open spec fn place_of(frames: Seq<Arc<DecodedFrame>>, path: Components) -> int {
    choose|i: int| found_at(frames, path, i)
}

/// The frames without that of a path.
pub open spec fn without(frames: Seq<Arc<DecodedFrame>>, path: Components) -> Seq<Arc<DecodedFrame>> {
    if holds(frames, path) {
        frames.remove(place_of(frames, path))
    } else {
        frames
    }
}

/// The frames with that of a path as the most recently used one.
pub open spec fn touched(frames: Seq<Arc<DecodedFrame>>, path: Components) -> Seq<Arc<DecodedFrame>> {
    if holds(frames, path) {
        without(frames, path).push(frames[place_of(frames, path)])
    } else {
        frames
    }
}

/// Whether a frame has to go: the limit is exceeded, and it is not the last one.
pub open spec fn excessive(frames: Seq<Arc<DecodedFrame>>, limit: nat) -> bool {
    total(frames) > limit && frames.len() > 1
}

/// What stays of the frames: the oldest ones go until no frame has to go. The protected one is
/// passed over and counts as used then.
pub open spec fn evicted(
    frames: Seq<Arc<DecodedFrame>>,
    limit: nat,
    protected: Components,
) -> Seq<Arc<DecodedFrame>>
    decreases frames.len(),
{
    if !excessive(frames, limit) {
        frames
    } else if frames[0].path.key() == protected {
        evicted_but(frames.drop_first(), limit, frames[0])
    } else {
        evicted(frames.drop_first(), limit, protected)
    }
}

/// What stays of the frames and of one that is kept in any case.
pub open spec fn evicted_but(
    frames: Seq<Arc<DecodedFrame>>,
    limit: nat,
    kept: Arc<DecodedFrame>,
) -> Seq<Arc<DecodedFrame>>
    decreases frames.len(),
{
    if frames.len() == 0 || !excessive(frames.push(kept), limit) {
        frames.push(kept)
    } else {
        evicted_but(frames.drop_first(), limit, kept)
    }
}

proof fn lemma_total_split(frames: Seq<Arc<DecodedFrame>>, i: int)
    requires
        0 <= i < frames.len(),
    ensures
        total(frames) == total(frames.remove(i)) + frames[i].pixels@.len(),
    decreases frames.len(),
{
    if i == frames.len() - 1 {
        assert(frames.remove(i) =~= frames.drop_last());
    } else {
        lemma_total_split(frames.drop_last(), i);
        assert(frames.remove(i).drop_last() =~= frames.drop_last().remove(i));
        assert(frames.remove(i).last() == frames.last());
    }
}

proof fn lemma_total_push(frames: Seq<Arc<DecodedFrame>>, frame: Arc<DecodedFrame>)
    ensures
        total(frames.push(frame)) == total(frames) + frame.pixels@.len(),
{
    assert(frames.push(frame).drop_last() =~= frames);
}

/// In distinct frames a path has at most one place.
proof fn lemma_place_unique(frames: Seq<Arc<DecodedFrame>>, path: Components, i: int)
    requires
        distinct(frames),
        found_at(frames, path, i),
    ensures
        place_of(frames, path) == i,
        holds(frames, path),
{
    let j = place_of(frames, path);
    assert(found_at(frames, path, j));
    if i < j {
        assert(frames[i].path.key() != frames[j].path.key());
    } else if j < i {
        assert(frames[j].path.key() != frames[i].path.key());
    }
}

proof fn lemma_remove_distinct(frames: Seq<Arc<DecodedFrame>>, i: int)
    requires
        distinct(frames),
        0 <= i < frames.len(),
    ensures
        distinct(frames.remove(i)),
        !holds(frames.remove(i), frames[i].path.key()),
{
    let rest = frames.remove(i);
    assert forall|a: int, b: int| 0 <= a < b < rest.len() implies (#[trigger] rest[a]).path.key() != (
    #[trigger] rest[b]).path.key() by {
        let a0 = if a < i {
            a
        } else {
            a + 1
        };
        let b0 = if b < i {
            b
        } else {
            b + 1
        };
        assert(rest[a] == frames[a0]);
        assert(rest[b] == frames[b0]);
    }
    assert forall|a: int| !found_at(rest, frames[i].path.key(), a) by {
        if 0 <= a < rest.len() {
            if a < i {
                assert(rest[a] == frames[a]);
            } else {
                assert(rest[a] == frames[a + 1]);
            }
        }
    }
}

proof fn lemma_push_distinct(frames: Seq<Arc<DecodedFrame>>, frame: Arc<DecodedFrame>)
    requires
        distinct(frames),
        !holds(frames, frame.path.key()),
    ensures
        distinct(frames.push(frame)),
{
    let all = frames.push(frame);
    assert forall|a: int, b: int| 0 <= a < b < all.len() implies (#[trigger] all[a]).path.key() != (
    #[trigger] all[b]).path.key() by {
        if b == frames.len() {
            assert(!found_at(frames, frame.path.key(), a));
        } else {
            assert(all[a] == frames[a]);
            assert(all[b] == frames[b]);
        }
    }
}

impl FrameCache {
    /// The number of bytes that the frames should not exceed.
    pub closed spec fn limit(&self) -> nat {
        self.limit_bytes as nat
    }

    /// The frames, from the least to the most recently used one.
    pub closed spec fn frames(&self) -> Seq<Arc<DecodedFrame>> {
        self.frames@
    }

    /// Every path is cached once, and the used bytes are those of all frames.
    pub closed spec fn well_formed(&self) -> bool {
        &&& distinct(self.frames@)
        &&& self.used_bytes == total(self.frames@)
    }

    /// An empty cache.
    pub fn new(limit_bytes: usize) -> (r: Self)
        ensures
            r.well_formed(),
            r.limit() == limit_bytes,
            r.frames() == Seq::<Arc<DecodedFrame>>::empty(),
    {
        FrameCache { limit_bytes, used_bytes: 0, frames: Vec::new() }
    }

    /// The bytes of all frames.
    pub fn used_bytes(&self) -> (r: usize)
        requires
            self.well_formed(),
        ensures
            r == total(self.frames()),
    {
        self.used_bytes
    }

    fn find(&self, path: &ImagePath) -> (r: Option<usize>)
        ensures
            match r {
                Some(i) => found_at(self.frames@, path.key(), i as int),
                None => !holds(self.frames@, path.key()),
            },
    {
        let mut i: usize = 0;
        while i < self.frames.len()
            invariant
                i <= self.frames.len(),
                forall|j: int| 0 <= j < i ==> (#[trigger] self.frames[j]).path.key() != path.key(),
            decreases self.frames.len() - i,
        {
            if self.frames[i].path.same(path) {
                return Some(i);
            }
            i = i + 1;
        }
        assert forall|j: int| !found_at(self.frames@, path.key(), j) by {
            if 0 <= j < self.frames@.len() {
                assert(self.frames[j].path.key() != path.key());
            }
        }
        None
    }

    /// The frame of a path, which counts as used now.
    pub fn get(&mut self, path: &ImagePath) -> (r: Option<Arc<DecodedFrame>>)
        requires
            old(self).well_formed(),
        ensures
            final(self).well_formed(),
            final(self).limit() == old(self).limit(),
            final(self).frames() == touched(old(self).frames(), path.key()),
            r is Some <==> holds(old(self).frames(), path.key()),
            r matches Some(frame) ==> frame == old(self).frames()[place_of(
                old(self).frames(),
                path.key(),
            )],
    {
        match self.find(path) {
            None => None,
            Some(i) => {
                let ghost before = self.frames@;
                proof {
                    lemma_place_unique(before, path.key(), i as int);
                    lemma_remove_distinct(before, i as int);
                    lemma_push_distinct(before.remove(i as int), before[i as int]);
                    lemma_total_split(before, i as int);
                    lemma_total_push(before.remove(i as int), before[i as int]);
                }
                let frame: Arc<DecodedFrame> = self.frames.remove(i);
                self.frames.push(Arc::clone(&frame));
                Some(frame)
            },
        }
    }

    /// The frame of a path, without counting it as used.
    pub fn peek(&self, path: &ImagePath) -> (r: Option<Arc<DecodedFrame>>)
        requires
            self.well_formed(),
        ensures
            r is Some <==> holds(self.frames(), path.key()),
            r matches Some(frame) ==> frame == self.frames()[place_of(self.frames(), path.key())],
    {
        match self.find(path) {
            None => None,
            Some(i) => {
                proof {
                    lemma_place_unique(self.frames@, path.key(), i as int);
                }
                Some(Arc::clone(&self.frames[i]))
            },
        }
    }

    /// Whether the frame of a path is cached.
    pub fn contains(&self, path: &ImagePath) -> (r: bool)
        ensures
            r == holds(self.frames(), path.key()),
    {
        match self.find(path) {
            Some(_) => true,
            None => false,
        }
    }

    /// Caches a frame in place of an earlier one of its path, and lets frames go while the limit
    /// is exceeded, but never the protected one and never the last one.
    pub fn insert(&mut self, frame: DecodedFrame, protected: &ImagePath)
        requires
            old(self).well_formed(),
            total(without(old(self).frames(), frame.path.key())) + frame.pixels@.len() <= usize::MAX,
        ensures
            final(self).well_formed(),
            final(self).limit() == old(self).limit(),
            final(self).frames() == evicted(
                without(old(self).frames(), frame.path.key()).push(Arc::new(frame)),
                old(self).limit(),
                protected.key(),
            ),
    {
        let ghost start = self.frames@;
        let size: usize = frame.size_bytes();
        let path: ImagePath = frame.path.clone();
        match self.find(&path) {
            Some(i) => {
                proof {
                    lemma_place_unique(start, path.key(), i as int);
                    lemma_remove_distinct(start, i as int);
                    lemma_total_split(start, i as int);
                }
                let old_frame: Arc<DecodedFrame> = self.frames.remove(i);
                self.used_bytes = self.used_bytes - old_frame.size_bytes();
            },
            None => {},
        }
        assert(self.frames@ == without(start, path.key()));
        assert(!holds(self.frames@, path.key()));
        let shared: Arc<DecodedFrame> = Arc::new(frame);
        proof {
            lemma_push_distinct(self.frames@, shared);
            lemma_total_push(self.frames@, shared);
        }
        self.frames.push(shared);
        self.used_bytes = self.used_bytes + size;
        let ghost all = self.frames@;
        let ghost limit = self.limit_bytes as nat;
        let ghost mut kept: Option<Arc<DecodedFrame>> = None;
        while self.used_bytes > self.limit_bytes && self.frames.len() > 1
            invariant
                self.well_formed(),
                self.limit_bytes == limit,
                match kept {
                    None => evicted(self.frames@, limit, protected.key()) == evicted(
                        all,
                        limit,
                        protected.key(),
                    ),
                    Some(frame) => {
                        &&& self.frames@.len() > 0
                        &&& self.frames@.last() == frame
                        &&& frame.path.key() == protected.key()
                        &&& evicted_but(self.frames@.drop_last(), limit, frame) == evicted(
                            all,
                            limit,
                            protected.key(),
                        )
                    },
                },
            decreases
                    self.frames.len(),
                    if kept is None {
                        1int
                    } else {
                        0int
                    },
        {
            let ghost now = self.frames@;
            proof {
                lemma_total_split(now, 0);
                lemma_remove_distinct(now, 0);
                assert(now.remove(0) =~= now.drop_first());
            }
            let candidate: Arc<DecodedFrame> = self.frames.remove(0);
            if candidate.path.same(protected) {
                proof {
                    lemma_push_distinct(now.drop_first(), candidate);
                    lemma_total_push(now.drop_first(), candidate);
                    assert(now.drop_first().push(candidate).drop_last() =~= now.drop_first());
                    if let Some(frame) = kept {
                        assert(now[now.len() - 1].path.key() == now[0].path.key());
                    }
                    kept = Some(candidate);
                }
                self.frames.push(candidate);
            } else {
                proof {
                    if let Some(frame) = kept {
                        let older = now.drop_last();
                        assert(older.push(frame) =~= now);
                        assert(older.drop_first() =~= now.drop_first().drop_last());
                    }
                }
                self.used_bytes = self.used_bytes - candidate.size_bytes();
            }
        }
        proof {
            if let Some(frame) = kept {
                assert(self.frames@.drop_last().push(frame) =~= self.frames@);
            }
        }
    }

    /// Lets the frame of a path go.
    pub fn remove(&mut self, path: &ImagePath)
        requires
            old(self).well_formed(),
        ensures
            final(self).well_formed(),
            final(self).limit() == old(self).limit(),
            final(self).frames() == without(old(self).frames(), path.key()),
    {
        match self.find(path) {
            Some(i) => {
                let ghost before = self.frames@;
                proof {
                    lemma_place_unique(before, path.key(), i as int);
                    lemma_remove_distinct(before, i as int);
                    lemma_total_split(before, i as int);
                }
                let removed: Arc<DecodedFrame> = self.frames.remove(i);
                self.used_bytes = self.used_bytes - removed.size_bytes();
            },
            None => {},
        }
    }
}

proof fn lemma_drop_first_distinct(frames: Seq<Arc<DecodedFrame>>)
    requires
        distinct(frames),
        frames.len() > 0,
    ensures
        distinct(frames.drop_first()),
        !holds(frames.drop_first(), frames[0].path.key()),
        total(frames) == total(frames.drop_first()) + frames[0].pixels@.len(),
{
    lemma_remove_distinct(frames, 0);
    lemma_total_split(frames, 0);
    assert(frames.remove(0) =~= frames.drop_first());
}

/// What stays beside a kept frame: the newest frames, as few gone as possible.
proof fn lemma_evicted_but(
    frames: Seq<Arc<DecodedFrame>>,
    limit: nat,
    kept: Arc<DecodedFrame>,
) -> (gone: int)
    requires
        distinct(frames.push(kept)),
    ensures
        0 <= gone <= frames.len(),
        evicted_but(frames, limit, kept) == frames.skip(gone).push(kept),
        distinct(evicted_but(frames, limit, kept)),
        !excessive(evicted_but(frames, limit, kept), limit),
        gone > 0 ==> total(evicted_but(frames, limit, kept)) + frames[gone - 1].pixels@.len() > limit,
    decreases frames.len(),
{
    if frames.len() == 0 || !excessive(frames.push(kept), limit) {
        assert(frames.skip(0) =~= frames);
        0
    } else {
        let rest = frames.drop_first();
        lemma_drop_first_distinct(frames.push(kept));
        assert(frames.push(kept).drop_first() =~= rest.push(kept));
        let more = lemma_evicted_but(rest, limit, kept);
        assert(rest.skip(more) =~= frames.skip(more + 1));
        if more == 0 {
            assert(rest.skip(0) =~= rest);
            assert(frames.push(kept)[0] == frames[0]);
        } else {
            assert(rest[more - 1] == frames[more]);
        }
        more + 1
    }
}

/// What stays when frames are evicted: either the newest frames, or the newest ones followed by
/// the protected one.
proof fn lemma_evicted(
    frames: Seq<Arc<DecodedFrame>>,
    limit: nat,
    protected: Components,
) -> (r: (int, int))
    requires
        distinct(frames),
    ensures
        ({
            let stay = evicted(frames, limit, protected);
            let (gone, passed) = r;
            &&& distinct(stay)
            &&& !excessive(stay, limit)
            &&& 0 <= gone <= frames.len()
            &&& -1 <= passed < gone
            &&& passed < 0 ==> stay == frames.skip(gone)
            &&& passed >= 0 ==> stay == frames.skip(gone).push(frames[passed])
            &&& passed >= 0 ==> frames[passed].path.key() == protected
            &&& forall|i: int|
                0 <= i < gone && i != passed ==> (#[trigger] frames[i]).path.key() != protected
            &&& gone > passed + 1 ==> total(stay) + frames[gone - 1].pixels@.len() > limit
            &&& passed >= 0 && gone == passed + 1 && passed > 0 ==> total(stay) + frames[passed
                - 1].pixels@.len() > limit
        }),
    decreases frames.len(),
{
    if !excessive(frames, limit) {
        assert(frames.skip(0) =~= frames);
        (0, -1)
    } else if frames[0].path.key() == protected {
        let rest = frames.drop_first();
        lemma_drop_first_distinct(frames);
        lemma_push_distinct(rest, frames[0]);
        let more = lemma_evicted_but(rest, limit, frames[0]);
        assert(rest.skip(more) =~= frames.skip(more + 1));
        assert forall|i: int| 0 < i < more + 1 implies (#[trigger] frames[i]).path.key() != protected by {
            assert(frames[0].path.key() != frames[i].path.key());
        }
        if more > 0 {
            assert(rest[more - 1] == frames[more]);
        }
        (more + 1, 0)
    } else {
        let rest = frames.drop_first();
        lemma_drop_first_distinct(frames);
        let (more, passed) = lemma_evicted(rest, limit, protected);
        assert(rest.skip(more) =~= frames.skip(more + 1));
        let stay = evicted(frames, limit, protected);
        let gone = more + 1;
        let place = if passed < 0 {
            -1
        } else {
            passed + 1
        };
        if passed >= 0 {
            assert(rest[passed] == frames[place]);
        }
        assert forall|i: int| 0 <= i < gone && i != place implies (#[trigger] frames[i]).path.key()
            != protected by {
            if i > 0 {
                assert(rest[i - 1] == frames[i]);
            }
        }
        if more == 0 {
            assert(rest.skip(0) =~= rest);
            assert(stay == rest);
        } else {
            assert(rest[more - 1] == frames[more]);
        }
        if passed == 0 && more == 1 {
            // Only the first frame has gone and the protected one has been passed over.
            assert(rest.skip(1).push(rest[0]) == stay);
            assert(rest.skip(1) =~= rest.remove(0));
            lemma_total_split(rest, 0);
            lemma_total_push(rest.remove(0), rest[0]);
        } else if passed > 0 {
            assert(rest[passed - 1] == frames[place - 1]);
        }
        (gone, place)
    }
}

/// The protected frame is never evicted.
pub proof fn protected_frame_stays(
    frames: Seq<Arc<DecodedFrame>>,
    limit: nat,
    protected: Components,
)
    requires
        distinct(frames),
        holds(frames, protected),
    ensures
        ({
            let stay = evicted(frames, limit, protected);
            &&& holds(stay, protected)
            &&& stay[place_of(stay, protected)] == frames[place_of(frames, protected)]
        }),
{
    let (gone, passed) = lemma_evicted(frames, limit, protected);
    let stay = evicted(frames, limit, protected);
    let i = place_of(frames, protected);
    assert(found_at(frames, protected, i));
    if i >= gone {
        assert(stay[i - gone] == frames[i]);
        assert(found_at(stay, protected, i - gone));
        lemma_place_unique(stay, protected, i - gone);
    } else {
        if i != passed {
            assert(frames[i].path.key() != protected);
        }
        assert(stay[stay.len() - 1] == frames[i]);
        assert(found_at(stay, protected, stay.len() - 1));
        lemma_place_unique(stay, protected, stay.len() - 1);
    }
}

/// After an eviction the limit is kept, or a single frame is left.
pub proof fn limit_is_kept(frames: Seq<Arc<DecodedFrame>>, limit: nat, protected: Components)
    requires
        distinct(frames),
    ensures
        ({
            let stay = evicted(frames, limit, protected);
            &&& distinct(stay)
            &&& total(stay) <= limit || stay.len() <= 1
            &&& frames.len() > 0 ==> stay.len() > 0
        }),
{
    let (gone, passed) = lemma_evicted(frames, limit, protected);
    if frames.len() > 0 {
        lemma_never_empty(frames, limit, protected);
    }
}

proof fn lemma_never_empty(frames: Seq<Arc<DecodedFrame>>, limit: nat, protected: Components)
    requires
        distinct(frames),
        frames.len() > 0,
    ensures
        evicted(frames, limit, protected).len() > 0,
    decreases frames.len(),
{
    if excessive(frames, limit) {
        let rest = frames.drop_first();
        lemma_drop_first_distinct(frames);
        if frames[0].path.key() == protected {
            lemma_push_distinct(rest, frames[0]);
            let more = lemma_evicted_but(rest, limit, frames[0]);
        } else {
            lemma_never_empty(rest, limit, protected);
        }
    }
}

/// Only frames that have been cached stay, each as it was.
pub proof fn eviction_adds_nothing(
    frames: Seq<Arc<DecodedFrame>>,
    limit: nat,
    protected: Components,
    i: int,
)
    requires
        distinct(frames),
        0 <= i < evicted(frames, limit, protected).len(),
    ensures
        frames.contains(evicted(frames, limit, protected)[i]),
{
    let (gone, passed) = lemma_evicted(frames, limit, protected);
    let stay = evicted(frames, limit, protected);
    if i < frames.len() - gone {
        assert(stay[i] == frames[gone + i]);
    } else {
        assert(stay[i] == frames[passed]);
    }
}

/// The least recently used frames go first: where an unprotected frame stays, so do all that were
/// used after it.
pub proof fn least_recently_used_goes_first(
    frames: Seq<Arc<DecodedFrame>>,
    limit: nat,
    protected: Components,
    i: int,
    j: int,
)
    requires
        distinct(frames),
        0 <= i < j < frames.len(),
        frames[i].path.key() != protected,
        holds(evicted(frames, limit, protected), frames[i].path.key()),
    ensures
        holds(evicted(frames, limit, protected), frames[j].path.key()),
{
    let (gone, passed) = lemma_evicted(frames, limit, protected);
    let stay = evicted(frames, limit, protected);
    let p = place_of(stay, frames[i].path.key());
    assert(found_at(stay, frames[i].path.key(), p));
    if i < gone {
        if p < frames.len() - gone {
            assert(stay[p] == frames[gone + p]);
            assert(frames[i].path.key() != frames[gone + p].path.key());
        } else {
            assert(stay[p] == frames[passed]);
        }
    }
    assert(stay[j - gone] == frames[j]);
    assert(found_at(stay, frames[j].path.key(), j - gone));
}

/// What is left when all unprotected frames before a place have gone.
pub open spec fn left_from(
    frames: Seq<Arc<DecodedFrame>>,
    place: int,
    protected: Components,
) -> Seq<Arc<DecodedFrame>> {
    if holds(frames.take(place), protected) {
        frames.skip(place).push(frames[place_of(frames.take(place), protected)])
    } else {
        frames.skip(place)
    }
}

/// No frame goes without need: whenever one goes, the limit is exceeded by those that are left with
/// it.
pub proof fn nothing_goes_without_need(
    frames: Seq<Arc<DecodedFrame>>,
    limit: nat,
    protected: Components,
    place: int,
)
    requires
        distinct(frames),
        0 <= place < frames.len(),
        !holds(evicted(frames, limit, protected), frames[place].path.key()),
    ensures
        excessive(left_from(frames, place, protected), limit),
        total(left_from(frames, place, protected)) > limit,
        left_from(frames, place, protected).len() > 1,
    decreases frames.len(),
{
    let stay = evicted(frames, limit, protected);
    let rest = frames.drop_first();
    if !excessive(frames, limit) {
        assert(found_at(stay, frames[place].path.key(), place));
    } else if frames[0].path.key() == protected {
        lemma_drop_first_distinct(frames);
        lemma_push_distinct(rest, frames[0]);
        let more = lemma_evicted_but(rest, limit, frames[0]);
        if place == 0 {
            assert(found_at(stay, frames[0].path.key(), stay.len() - 1));
        } else {
            assert(found_at(frames.take(place), protected, 0));
            lemma_take_distinct(frames, place);
            lemma_place_unique(frames.take(place), protected, 0);
            lemma_gone_but(rest, limit, frames[0], place - 1);
            assert(rest.skip(place - 1) =~= frames.skip(place));
        }
    } else {
        lemma_drop_first_distinct(frames);
        if place == 0 {
            assert(left_from(frames, 0, protected) =~= frames) by {
                assert forall|i: int| !found_at(frames.take(0), protected, i) by {}
                assert(frames.skip(0) =~= frames);
            }
        } else {
            assert(rest[place - 1] == frames[place]);
            nothing_goes_without_need(rest, limit, protected, place - 1);
            assert(rest.skip(place - 1) =~= frames.skip(place));
            let before = frames.take(place);
            let before_rest = rest.take(place - 1);
            assert(before.drop_first() =~= before_rest);
            lemma_take_distinct(frames, place);
            lemma_take_distinct(rest, place - 1);
            if holds(before, protected) {
                let i = place_of(before, protected);
                assert(found_at(before, protected, i));
                assert(found_at(before_rest, protected, i - 1));
                lemma_place_unique(before_rest, protected, i - 1);
            } else {
                assert forall|i: int| !found_at(before_rest, protected, i) by {
                    assert(!found_at(before, protected, i + 1));
                }
            }
        }
    }
}

proof fn lemma_take_distinct(frames: Seq<Arc<DecodedFrame>>, count: int)
    requires
        distinct(frames),
        0 <= count <= frames.len(),
    ensures
        distinct(frames.take(count)),
{
    let part = frames.take(count);
    assert forall|a: int, b: int| 0 <= a < b < part.len() implies (#[trigger] part[a]).path.key()
        != (#[trigger] part[b]).path.key() by {
        assert(part[a] == frames[a] && part[b] == frames[b]);
    }
}

/// Beside a kept frame, another one goes only while the limit is exceeded.
proof fn lemma_gone_but(
    frames: Seq<Arc<DecodedFrame>>,
    limit: nat,
    kept: Arc<DecodedFrame>,
    place: int,
)
    requires
        distinct(frames.push(kept)),
        0 <= place < frames.len(),
        !holds(evicted_but(frames, limit, kept), frames[place].path.key()),
    ensures
        excessive(frames.skip(place).push(kept), limit),
    decreases frames.len(),
{
    let all = frames.push(kept);
    if !excessive(all, limit) {
        assert(found_at(all, frames[place].path.key(), place));
    } else if place == 0 {
        assert(frames.skip(0) =~= frames);
    } else {
        let rest = frames.drop_first();
        lemma_drop_first_distinct(all);
        assert(all.drop_first() =~= rest.push(kept));
        assert(rest[place - 1] == frames[place]);
        lemma_gone_but(rest, limit, kept, place - 1);
        assert(rest.skip(place - 1) =~= frames.skip(place));
    }
}

/// A cache holds every path once, and its frames together have a number of bytes that can be
/// counted.
pub proof fn every_path_is_cached_once(cache: &FrameCache)
    requires
        cache.well_formed(),
    ensures
        distinct(cache.frames()),
        total(cache.frames()) <= usize::MAX,
{
}

/// A frame that takes the place of an earlier one keeps the paths distinct.
pub proof fn cached_frames_are_distinct(
    frames: Seq<Arc<DecodedFrame>>,
    frame: Arc<DecodedFrame>,
)
    requires
        distinct(frames),
    ensures
        distinct(without(frames, frame.path.key()).push(frame)),
{
    remaining_frames_are_distinct(frames, frame.path.key());
    lemma_push_distinct(without(frames, frame.path.key()), frame);
}

/// Letting a frame go keeps the paths distinct.
pub proof fn remaining_frames_are_distinct(frames: Seq<Arc<DecodedFrame>>, path: Components)
    requires
        distinct(frames),
    ensures
        distinct(without(frames, path)),
        !holds(without(frames, path), path),
{
    if holds(frames, path) {
        let i = place_of(frames, path);
        assert(found_at(frames, path, i));
        lemma_remove_distinct(frames, i);
    }
}

/// Caching a frame of another path keeps the frame of a path.
pub proof fn push_keeps_others(
    frames: Seq<Arc<DecodedFrame>>,
    frame: Arc<DecodedFrame>,
    path: Components,
)
    requires
        distinct(frames.push(frame)),
        holds(frames, path),
    ensures
        holds(frames.push(frame), path),
        frames.push(frame)[place_of(frames.push(frame), path)] == frames[place_of(frames, path)],
{
    let i = place_of(frames, path);
    assert(found_at(frames, path, i));
    assert(found_at(frames.push(frame), path, i));
    lemma_place_unique(frames.push(frame), path, i);
}

/// A frame that is cached under the protected path is found again, whatever its size.
pub proof fn protected_frame_is_read_back(
    frames: Seq<Arc<DecodedFrame>>,
    limit: nat,
    frame: Arc<DecodedFrame>,
)
    requires
        distinct(frames),
    ensures
        ({
            let after = evicted(without(frames, frame.path.key()).push(frame), limit, frame.path.key());
            &&& holds(after, frame.path.key())
            &&& after[place_of(after, frame.path.key())] == frame
        }),
{
    remaining_frames_are_distinct(frames, frame.path.key());
    let all = without(frames, frame.path.key()).push(frame);
    lemma_push_distinct(without(frames, frame.path.key()), frame);
    assert(found_at(all, frame.path.key(), all.len() - 1));
    lemma_place_unique(all, frame.path.key(), all.len() - 1);
    protected_frame_stays(all, limit, frame.path.key());
}

/// A frame that fits beside the others is found again, and the others stay.
pub proof fn fitting_frame_is_read_back(
    frames: Seq<Arc<DecodedFrame>>,
    limit: nat,
    frame: Arc<DecodedFrame>,
    protected: Components,
)
    requires
        distinct(frames),
        total(without(frames, frame.path.key())) + frame.pixels@.len() <= limit,
    ensures
        ({
            let after = evicted(without(frames, frame.path.key()).push(frame), limit, protected);
            &&& after == without(frames, frame.path.key()).push(frame)
            &&& holds(after, frame.path.key())
            &&& after[place_of(after, frame.path.key())] == frame
        }),
{
    remaining_frames_are_distinct(frames, frame.path.key());
    let rest = without(frames, frame.path.key());
    lemma_total_push(rest, frame);
    lemma_push_distinct(rest, frame);
    let all = rest.push(frame);
    assert(found_at(all, frame.path.key(), all.len() - 1));
    lemma_place_unique(all, frame.path.key(), all.len() - 1);
}

/// Looking a frame up, or letting one go, keeps all others.
pub proof fn other_frames_are_kept(
    frames: Seq<Arc<DecodedFrame>>,
    path: Components,
    other: Components,
)
    requires
        distinct(frames),
    ensures
        distinct(touched(frames, path)),
        total(touched(frames, path)) == total(frames),
        holds(touched(frames, path), other) <==> holds(frames, other),
        holds(frames, other) ==> touched(frames, path)[place_of(touched(frames, path), other)]
            == frames[place_of(frames, other)],
        holds(without(frames, path), other) <==> holds(frames, other) && other != path,
        holds(without(frames, path), other) ==> without(frames, path)[place_of(
            without(frames, path),
            other,
        )] == frames[place_of(frames, other)],
{
    remaining_frames_are_distinct(frames, path);
    if holds(frames, path) {
        let k = place_of(frames, path);
        assert(found_at(frames, path, k));
        let rest = frames.remove(k);
        let moved = rest.push(frames[k]);
        lemma_push_distinct(rest, frames[k]);
        lemma_total_split(frames, k);
        lemma_total_push(rest, frames[k]);
        if holds(frames, other) {
            let i = place_of(frames, other);
            assert(found_at(frames, other, i));
            if i == k {
                assert(found_at(moved, other, rest.len() as int));
                lemma_place_unique(moved, other, rest.len() as int);
            } else {
                let j = if i < k {
                    i
                } else {
                    i - 1
                };
                assert(rest[j] == frames[i]);
                assert(found_at(rest, other, j));
                lemma_place_unique(rest, other, j);
                assert(moved[j] == frames[i]);
                assert(found_at(moved, other, j));
                lemma_place_unique(moved, other, j);
            }
        } else {
            assert forall|j: int| !found_at(moved, other, j) by {
                if 0 <= j < rest.len() {
                    let i = if j < k {
                        j
                    } else {
                        j + 1
                    };
                    assert(moved[j] == frames[i]);
                    assert(!found_at(frames, other, i));
                } else if j == rest.len() {
                    assert(!found_at(frames, other, k));
                }
            }
            assert forall|j: int| !found_at(rest, other, j) by {
                if 0 <= j < rest.len() {
                    assert(rest[j] == moved[j]);
                    assert(!found_at(moved, other, j));
                }
            }
        }
    }
}

/// A frame that is looked up becomes the most recently used one, and one that is let go leaves; the
/// others keep their order.
pub proof fn used_frame_is_the_most_recent(
    frames: Seq<Arc<DecodedFrame>>,
    path: Components,
    place: int,
)
    requires
        distinct(frames),
        0 <= place < frames.len(),
        frames[place].path.key() == path,
    ensures
        touched(frames, path) == frames.remove(place).push(frames[place]),
        without(frames, path) == frames.remove(place),
{
    assert(found_at(frames, path, place));
    lemma_place_unique(frames, path, place);
}

/// The bytes of all frames are those of each of them.
pub proof fn bytes_of_all_frames_count(
    frames: Seq<Arc<DecodedFrame>>,
    more: Seq<Arc<DecodedFrame>>,
    frame: Arc<DecodedFrame>,
)
    ensures
        total(frames + more) == total(frames) + total(more),
        total(seq![frame]) == frame.pixels@.len(),
        total(Seq::<Arc<DecodedFrame>>::empty()) == 0,
    decreases more.len(),
{
    reveal_with_fuel(total, 2);
    assert(seq![frame].drop_last() =~= Seq::<Arc<DecodedFrame>>::empty());
    let all = frames + more;
    if more.len() == 0 {
        assert(all =~= frames);
    } else {
        bytes_of_all_frames_count(frames, more.drop_last(), frame);
        assert(all.drop_last() =~= frames + more.drop_last());
    }
}

} // verus!
