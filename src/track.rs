use vstd::prelude::*;

use crate::graph::{is_zero_weight, ClipId, Weight, MAX_CLIPS};

verus! {

/// Identifies an animated property. The store does not look inside it.
#[derive(Debug, Clone, Copy, PartialEq, Eq, Structural, Hash, PartialOrd, Ord)]
pub struct PropertyKey(pub u64);

/// The family of values that a curve yields and a track blends.
#[derive(Debug, Clone, Copy, PartialEq, Eq, Structural, Hash)]
pub enum ValueKind {
    Float32,
    Float64,
    Float32x2,
    Float32x3,
    Float32x3A,
    Float32x4,
    Float64x2,
    Float64x3,
    Float64x4,
    Quat,
    Bool,
    Transform,
}

/// The entry for `key` in a list of keyed entries: the last one with that key.
pub open spec fn lookup<X>(s: Seq<(PropertyKey, X)>, key: PropertyKey) -> Option<X>
    decreases s.len(),
{
    if s.len() == 0 {
        None
    } else if s.last().0 == key {
        Some(s.last().1)
    } else {
        lookup(s.drop_last(), key)
    }
}

/// No key appears twice.
pub open spec fn unique_keys<X>(s: Seq<(PropertyKey, X)>) -> bool {
    forall|i: int, j: int| 0 <= i < j < s.len() ==> (#[trigger] s[i]).0 != (#[trigger] s[j]).0
}

proof fn lemma_lookup_at<X>(s: Seq<(PropertyKey, X)>, i: int)
    requires
        unique_keys(s),
        0 <= i < s.len(),
    ensures
        lookup(s, s[i].0) == Some(s[i].1),
    decreases s.len(),
{
    if i < s.len() - 1 {
        assert(s.last().0 != s[i].0);
        assert(unique_keys(s.drop_last()));
        lemma_lookup_at(s.drop_last(), i);
    }
}

proof fn lemma_lookup_none<X>(s: Seq<(PropertyKey, X)>, key: PropertyKey)
    ensures
        lookup(s, key) is None <==> forall|i: int| 0 <= i < s.len() ==> (#[trigger] s[i]).0 != key,
    decreases s.len(),
{
    if s.len() > 0 {
        lemma_lookup_none(s.drop_last(), key);
        if s.last().0 != key {
            assert forall|i: int| 0 <= i < s.len() - 1 implies s.drop_last()[i] == s[i] by {}
        }
    }
}

proof fn lemma_lookup_update<X>(s: Seq<(PropertyKey, X)>, i: int, x: X, key: PropertyKey)
    requires
        unique_keys(s),
        0 <= i < s.len(),
    ensures
        unique_keys(s.update(i, (s[i].0, x))),
        lookup(s.update(i, (s[i].0, x)), key) == if key == s[i].0 {
            Some(x)
        } else {
            lookup(s, key)
        },
    decreases s.len(),
{
    let t = s.update(i, (s[i].0, x));
    assert forall|a: int, b: int| 0 <= a < b < t.len() implies (#[trigger] t[a]).0 != (#[trigger] t[b]).0 by {
        assert(t[a].0 == s[a].0);
        assert(t[b].0 == s[b].0);
    }
    if i == s.len() - 1 {
        assert(t.drop_last() =~= s.drop_last());
    } else {
        assert(t.drop_last() =~= s.drop_last().update(i, (s[i].0, x)));
        assert(unique_keys(s.drop_last()));
        lemma_lookup_update(s.drop_last(), i, x, key);
        if key == s[i].0 {
            assert(s.last().0 != s[i].0);
        }
    }
}

/// How a clip's curves look to the specifications: each property's key,
/// the kind of value its curve yields, and the curve.
pub open spec fn clip_entries<C>(s: Seq<(PropertyKey, ValueKind, C)>) -> Seq<(PropertyKey, (ValueKind, C))> {
    s.map_values(|e: (PropertyKey, ValueKind, C)| (e.0, (e.1, e.2)))
}

/// Why a curve could not be taken from a clip.
#[derive(Debug, Clone, Copy, PartialEq, Eq)]
pub enum GetCurveError {
    /// The clip has no curve for the property.
    MissingKey,
    /// The clip's curve for the property yields another kind of value.
    WrongType,
}

/// An immutable set of curves, one per property, that play together.
/// `C` is a shared handle to a curve.
#[derive(Debug)]
pub struct AnimationClip<C> {
    curves: Vec<(PropertyKey, ValueKind, C)>,
}

impl<C: Copy> AnimationClip<C> {
    /// The clip's curves by property.
    pub closed spec fn spec_entries(&self) -> Seq<(PropertyKey, (ValueKind, C))> {
        clip_entries(self.curves@)
    }

    /// Each property has at most one curve.
    pub closed spec fn wf(&self) -> bool {
        unique_keys(clip_entries(self.curves@))
    }

    /// A builder with no curves.
    pub fn builder() -> (r: AnimationClipBuilder<C>)
        ensures
            r.spec_entries().len() == 0,
            r.wf(),
    {
        AnimationClipBuilder::new()
    }

    /// The properties that the clip animates, in the order they were added.
    pub fn properties(&self) -> (r: Vec<PropertyKey>)
        ensures
            r@.len() == self.spec_entries().len(),
            forall|i: int| 0 <= i < r@.len() ==> r@[i] == (#[trigger] self.spec_entries()[i]).0,
    {
        let mut r: Vec<PropertyKey> = Vec::new();
        let mut i: usize = 0;
        while i < self.curves.len()
            invariant
                i <= self.curves@.len(),
                r@.len() == i,
                forall|j: int| 0 <= j < i ==> r@[j] == (#[trigger] clip_entries(self.curves@)[j]).0,
            decreases self.curves@.len() - i,
        {
            r.push(self.curves[i].0);
            i = i + 1;
        }
        r
    }

    /// The curve for `key`, which must yield values of kind `kind`.
    pub fn get_curve(&self, key: PropertyKey, kind: ValueKind) -> (r: Result<C, GetCurveError>)
        ensures
            match lookup(self.spec_entries(), key) {
                None => r == Err::<C, _>(GetCurveError::MissingKey),
                Some(e) => if e.0 == kind {
                    r == Ok::<C, GetCurveError>(e.1)
                } else {
                    r == Err::<C, _>(GetCurveError::WrongType)
                },
            },
    {
        match find_entry(&self.curves, key) {
            None => Err(GetCurveError::MissingKey),
            Some(i) => {
                let (_, k, c) = self.curves[i];
                if k == kind {
                    Ok(c)
                } else {
                    Err(GetCurveError::WrongType)
                }
            },
        }
    }
}

/// The position of the last entry for `key`, as `lookup` finds it.
fn find_entry<C: Copy>(curves: &Vec<(PropertyKey, ValueKind, C)>, key: PropertyKey) -> (r: Option<usize>)
    ensures
        match r {
            Some(i) => i < curves@.len() && curves@[i as int].0 == key && lookup(clip_entries(curves@), key)
                == Some((curves@[i as int].1, curves@[i as int].2)),
            None => lookup(clip_entries(curves@), key) is None,
        },
{
    let mut n: usize = curves.len();
    assert(curves@.take(n as int) =~= curves@);
    while n > 0
        invariant
            n <= curves@.len(),
            lookup(clip_entries(curves@), key) == lookup(clip_entries(curves@.take(n as int)), key),
        decreases n,
    {
        let e = curves[n - 1];
        assert(clip_entries(curves@.take(n as int)).drop_last() =~= clip_entries(curves@.take(n - 1)));
        if e.0 == key {
            return Some(n - 1);
        }
        n = n - 1;
    }
    assert(clip_entries(curves@.take(0)) =~= Seq::empty());
    None
}

/// Collects curves for a clip. Adding a curve for a property that already
/// has one replaces it.
#[derive(Debug)]
pub struct AnimationClipBuilder<C> {
    curves: Vec<(PropertyKey, ValueKind, C)>,
}

impl<C: Copy> AnimationClipBuilder<C> {
    /// The curves collected so far, by property.
    pub closed spec fn spec_entries(&self) -> Seq<(PropertyKey, (ValueKind, C))> {
        clip_entries(self.curves@)
    }

    /// Each property has at most one curve.
    pub closed spec fn wf(&self) -> bool {
        unique_keys(clip_entries(self.curves@))
    }

    /// A builder with no curves.
    pub fn new() -> (r: Self)
        ensures
            r.spec_entries().len() == 0,
            r.wf(),
    {
        AnimationClipBuilder { curves: Vec::new() }
    }

    /// Adds `curve`, yielding values of kind `kind`, for property `key`.
    pub fn add_curve(self, key: PropertyKey, kind: ValueKind, curve: C) -> (r: Self)
        requires
            self.wf(),
        ensures
            r.wf(),
            forall|k: PropertyKey| #[trigger] lookup(r.spec_entries(), k) == if k == key {
                Some((kind, curve))
            } else {
                lookup(self.spec_entries(), k)
            },
    {
        let mut curves = self.curves;
        let ghost before = clip_entries(curves@);
        match find_entry(&curves, key) {
            Some(i) => {
                curves.set(i, (key, kind, curve));
                proof {
                    assert(clip_entries(curves@) =~= before.update(i as int, (before[i as int].0, (kind, curve))));
                    assert forall|k: PropertyKey| #[trigger] lookup(clip_entries(curves@), k) == if k == key {
                        Some((kind, curve))
                    } else {
                        lookup(before, k)
                    } by {
                        lemma_lookup_update(before, i as int, (kind, curve), k);
                    }
                    lemma_lookup_update(before, i as int, (kind, curve), key);
                }
            },
            None => {
                curves.push((key, kind, curve));
                proof {
                    let after = clip_entries(curves@);
                    assert(after =~= before.push((key, (kind, curve))));
                    assert(after.drop_last() =~= before);
                    lemma_lookup_none(before, key);
                    assert forall|a: int, b: int| 0 <= a < b < after.len() implies (#[trigger] after[a]).0 != (#[trigger] after[b]).0 by {
                        if b == after.len() - 1 {
                            assert(before[a].0 != key);
                        } else {
                            assert(after[a] == before[a]);
                            assert(after[b] == before[b]);
                        }
                    }
                }
            },
        }
        AnimationClipBuilder { curves }
    }

    /// The clip holding the curves collected.
    pub fn build(self) -> (r: AnimationClip<C>)
        requires
            self.wf(),
        ensures
            r.wf(),
            r.spec_entries() == self.spec_entries(),
    {
        AnimationClip { curves: self.curves }
    }
}

/// Why a track could not be used.
#[derive(Debug, Clone, Copy, PartialEq, Eq)]
pub enum TrackError {
    /// The track holds another kind of value than the one asked for or added.
    IncorrectType,
    /// No track exists for the property.
    MissingTrack,
}

/// The curves of one property, indexed by clip id. A clip id without a
/// curve, or past the end, does not affect the property.
#[derive(Debug)]
pub struct Track<C> {
    kind: ValueKind,
    curves: Vec<Option<C>>,
}

/// The kind of value of an entry.
pub open spec fn kind_of<X>(e: (ValueKind, X)) -> ValueKind {
    e.0
}

/// `curves` with `c` as the curve of clip `clip`, grown with empty slots as needed.
pub open spec fn with_curve<C>(curves: Seq<Option<C>>, clip: nat, c: C) -> Seq<Option<C>> {
    if clip < curves.len() {
        curves.update(clip as int, Some(c))
    } else {
        (curves + Seq::new((clip - curves.len()) as nat, |i: int| None::<C>)).push(Some(c))
    }
}

/// The track of a property after clip `clip` contributes `entry` to it:
/// unchanged without a curve, else the curve put in the clip's slot.
pub open spec fn registered<C>(
    track: Option<(ValueKind, Seq<Option<C>>)>,
    entry: Option<(ValueKind, C)>,
    clip: nat,
) -> Option<(ValueKind, Seq<Option<C>>)> {
    match entry {
        None => track,
        Some(e) => Some(
            (
                kind_of(e),
                with_curve(
                    match track {
                        Some(t) => t.1,
                        None => Seq::empty(),
                    },
                    clip,
                    e.1,
                ),
            ),
        ),
    }
}

/// Whether the clip's curve at position `i` yields another kind of value than
/// the track already kept for its property.
pub open spec fn conflicts_at<C>(
    tracks: Seq<(PropertyKey, (ValueKind, Seq<Option<C>>))>,
    clip: Seq<(PropertyKey, (ValueKind, C))>,
    i: int,
) -> bool {
    &&& lookup(tracks, clip[i].0) is Some
    &&& kind_of(lookup(tracks, clip[i].0).unwrap()) != kind_of(clip[i].1)
}

/// The clips that contribute to a track, in ascending id: those among the
/// first `n` ids with a non-zero weight and a curve, each with its weight
/// and curve.
pub open spec fn contributions<C>(curves: Seq<Option<C>>, weights: Seq<Weight>, n: nat) -> Seq<
    (ClipId, Weight, C),
>
    decreases n,
{
    if n == 0 {
        Seq::empty()
    } else {
        let i = n - 1;
        let rest = contributions(curves, weights, (n - 1) as nat);
        if i < curves.len() && i < weights.len() && !is_zero_weight(weights[i]) && curves[i] is Some {
            rest.push((ClipId(i as u16), weights[i], curves[i].unwrap()))
        } else {
            rest
        }
    }
}

/// The tracks of all animated properties, each gathering the curves that
/// every registered clip has for that property.
#[derive(Debug)]
pub struct TrackStore<C> {
    tracks: Vec<(PropertyKey, Track<C>)>,
}

pub closed spec fn track_entries<C>(s: Seq<(PropertyKey, Track<C>)>) -> Seq<
    (PropertyKey, (ValueKind, Seq<Option<C>>)),
> {
    s.map_values(|e: (PropertyKey, Track<C>)| (e.0, (e.1.kind, e.1.curves@)))
}

impl<C: Copy> TrackStore<C> {
    /// The tracks by property.
    pub closed spec fn spec_entries(&self) -> Seq<(PropertyKey, (ValueKind, Seq<Option<C>>))> {
        track_entries(self.tracks@)
    }

    /// Each property has at most one track.
    pub closed spec fn wf(&self) -> bool {
        unique_keys(track_entries(self.tracks@))
    }

    /// A store with no tracks.
    pub fn new() -> (r: Self)
        ensures
            r.wf(),
            r.spec_entries().len() == 0,
    {
        TrackStore { tracks: Vec::new() }
    }

    /// The position of the track for `key`, if there is one.
    fn find_track(&self, key: PropertyKey) -> (r: Option<usize>)
        requires
            self.wf(),
        ensures
            match r {
                Some(j) => j < self.tracks@.len() && self.tracks@[j as int].0 == key && lookup(
                    self.spec_entries(),
                    key,
                ) == Some(self.spec_entries()[j as int].1),
                None => lookup(self.spec_entries(), key) is None,
            },
    {
        let mut j: usize = 0;
        while j < self.tracks.len()
            invariant
                self.wf(),
                j <= self.tracks@.len(),
                forall|m: int| 0 <= m < j ==> (#[trigger] self.spec_entries()[m]).0 != key,
            decreases self.tracks@.len() - j,
        {
            if self.tracks[j].0 == key {
                proof {
                    lemma_lookup_at(self.spec_entries(), j as int);
                }
                return Some(j);
            }
            j = j + 1;
        }
        proof {
            lemma_lookup_none(self.spec_entries(), key);
        }
        None
    }

    /// Registers the curves of a clip under id `clip_id`. All curves are
    /// checked first: if any yields another kind of value than the track
    /// already kept for its property, nothing is changed and the result is
    /// `IncorrectType`. Otherwise each curve goes into its property's track,
    /// which is created when the property is new.
    pub fn add_clip(&mut self, clip_id: ClipId, clip: &AnimationClip<C>) -> (r: Result<(), TrackError>)
        requires
            old(self).wf(),
            clip.wf(),
        ensures
            final(self).wf(),
            (exists|i: int|
                0 <= i < clip.spec_entries().len() && conflicts_at(old(self).spec_entries(), clip.spec_entries(), i))
                ==> r == Err::<(), _>(TrackError::IncorrectType) && final(self).spec_entries() == old(
                self,
            ).spec_entries(),
            !(exists|i: int|
                0 <= i < clip.spec_entries().len() && conflicts_at(old(self).spec_entries(), clip.spec_entries(), i))
                ==> r is Ok && forall|k: PropertyKey| #[trigger] lookup(final(self).spec_entries(), k)
                == registered(lookup(old(self).spec_entries(), k), lookup(clip.spec_entries(), k), clip_id.0 as nat),
    {
        let ghost entries = clip.spec_entries();
        let ghost old_tracks = self.spec_entries();
        let mut i: usize = 0;
        while i < clip.curves.len()
            invariant
                i <= clip.curves@.len(),
                entries == clip.spec_entries(),
                entries.len() == clip.curves@.len(),
                old_tracks == self.spec_entries(),
                self.wf(),
                forall|m: int| 0 <= m < i ==> !conflicts_at(old_tracks, entries, m),
            decreases clip.curves@.len() - i,
        {
            let (key, kind, _) = clip.curves[i];
            assert(entries[i as int].0 == key && kind_of(entries[i as int].1) == kind);
            match self.find_track(key) {
                Some(j) => {
                    if self.tracks[j].1.kind != kind {
                        assert(conflicts_at(old_tracks, entries, i as int));
                        return Err(TrackError::IncorrectType);
                    }
                },
                None => {},
            }
            i = i + 1;
        }
        let mut i: usize = 0;
        assert(clip_entries(clip.curves@.take(0)) =~= Seq::empty());
        while i < clip.curves.len()
            invariant
                i <= clip.curves@.len(),
                entries == clip.spec_entries(),
                entries.len() == clip.curves@.len(),
                unique_keys(entries),
                self.wf(),
                forall|m: int| 0 <= m < entries.len() ==> !conflicts_at(old_tracks, entries, m),
                forall|k: PropertyKey| #[trigger] lookup(self.spec_entries(), k) == registered(
                    lookup(old_tracks, k),
                    lookup(clip_entries(clip.curves@.take(i as int)), k),
                    clip_id.0 as nat,
                ),
            decreases clip.curves@.len() - i,
        {
            let (key, kind, curve) = clip.curves[i];
            let ghost taken = clip_entries(clip.curves@.take(i as int));
            let ghost taken1 = clip_entries(clip.curves@.take(i + 1));
            proof {
                assert(taken1.drop_last() =~= taken);
                assert(taken1.last() == (key, (kind, curve)));
                assert forall|m: int| 0 <= m < taken.len() implies (#[trigger] taken[m]).0 != key by {
                    assert(taken[m] == entries[m]);
                    assert(entries[i as int].0 == key);
                }
                lemma_lookup_none(taken, key);
                assert(!conflicts_at(old_tracks, entries, i as int));
            }
            let ghost before = self.spec_entries();
            assert(lookup(before, key) == lookup(old_tracks, key));
            match self.find_track(key) {
                Some(j) => {
                    let curves = grow_with(&self.tracks[j].1.curves, clip_id.0 as usize, curve);
                    self.tracks.set(j, (key, Track { kind, curves }));
                    proof {
                        assert(self.spec_entries() =~= before.update(
                            j as int,
                            (before[j as int].0, (kind, with_curve(before[j as int].1.1, clip_id.0 as nat, curve))),
                        ));
                        assert forall|k: PropertyKey| #[trigger] lookup(self.spec_entries(), k) == registered(
                            lookup(old_tracks, k),
                            lookup(taken1, k),
                            clip_id.0 as nat,
                        ) by {
                            lemma_lookup_update(
                                before,
                                j as int,
                                (kind, with_curve(before[j as int].1.1, clip_id.0 as nat, curve)),
                                k,
                            );
                        }
                        lemma_lookup_update(
                            before,
                            j as int,
                            (kind, with_curve(before[j as int].1.1, clip_id.0 as nat, curve)),
                            key,
                        );
                        lemma_lookup_at(before, j as int);
                        assert forall|k: PropertyKey| #[trigger] lookup(self.spec_entries(), k) == registered(
                            lookup(old_tracks, k),
                            lookup(taken1, k),
                            clip_id.0 as nat,
                        ) by {
                            lemma_lookup_update(
                                before,
                                j as int,
                                (kind, with_curve(before[j as int].1.1, clip_id.0 as nat, curve)),
                                k,
                            );
                            if k != key {
                                assert(lookup(taken1, k) == lookup(taken, k));
                            }
                        }
                    }
                },
                None => {
                    let curves = grow_with(&Vec::new(), clip_id.0 as usize, curve);
                    self.tracks.push((key, Track { kind, curves }));
                    proof {
                        let after = self.spec_entries();
                        assert(after =~= before.push((key, (kind, with_curve(Seq::empty(), clip_id.0 as nat, curve)))));
                        assert(after.drop_last() =~= before);
                        lemma_lookup_none(before, key);
                        assert forall|k: PropertyKey| #[trigger] lookup(self.spec_entries(), k) == registered(
                            lookup(old_tracks, k),
                            lookup(taken1, k),
                            clip_id.0 as nat,
                        ) by {
                            if k != key {
                                assert(lookup(after, k) == lookup(before, k));
                                assert(lookup(taken1, k) == lookup(taken, k));
                            }
                        }
                        assert forall|a: int, b: int| 0 <= a < b < after.len() implies (#[trigger] after[a]).0 != (#[trigger] after[b]).0 by {
                            if b == after.len() - 1 {
                                assert(before[a].0 != key);
                            } else {
                                assert(after[a] == before[a]);
                                assert(after[b] == before[b]);
                            }
                        }
                    }
                },
            }
            i = i + 1;
        }
        proof {
            assert(clip.curves@.take(i as int) =~= clip.curves@);
        }
        Ok(())
    }

    /// The inputs to blend for property `key`, whose values must be of kind
    /// `kind`, given each clip's weight indexed by clip id: the clips with a
    /// non-zero weight and a curve for the property, in ascending id.
    pub fn sample_inputs(&self, key: PropertyKey, kind: ValueKind, weights: &Vec<Weight>) -> (r: Result<
        Vec<(ClipId, Weight, C)>,
        TrackError,
    >)
        requires
            self.wf(),
            weights@.len() <= MAX_CLIPS,
        ensures
            match lookup(self.spec_entries(), key) {
                None => r == Err::<Vec<(ClipId, Weight, C)>, _>(TrackError::MissingTrack),
                Some(t) => if kind_of(t) != kind {
                    r == Err::<Vec<(ClipId, Weight, C)>, _>(TrackError::IncorrectType)
                } else {
                    r is Ok && r->Ok_0@ == contributions(t.1, weights@, weights@.len())
                },
            },
    {
        let j = match self.find_track(key) {
            Some(j) => j,
            None => {
                return Err(TrackError::MissingTrack);
            },
        };
        let track = &self.tracks[j].1;
        if track.kind != kind {
            return Err(TrackError::IncorrectType);
        }
        let mut out: Vec<(ClipId, Weight, C)> = Vec::new();
        let mut i: usize = 0;
        while i < weights.len()
            invariant
                i <= weights@.len(),
                weights@.len() <= MAX_CLIPS,
                out@ == contributions(track.curves@, weights@, i as nat),
            decreases weights@.len() - i,
        {
            if i < track.curves.len() && !weights[i].is_zero() {
                match track.curves[i] {
                    Some(c) => {
                        out.push((ClipId(i as u16), weights[i], c));
                    },
                    None => {},
                }
            }
            i = i + 1;
        }
        Ok(out)
    }
}

/// A copy of `curves` with `c` as the curve of clip `clip`, grown with empty
/// slots as needed.
fn grow_with<C: Copy>(curves: &Vec<Option<C>>, clip: usize, c: C) -> (r: Vec<Option<C>>)
    ensures
        r@ == with_curve(curves@, clip as nat, c),
{
    let mut r: Vec<Option<C>> = Vec::new();
    let mut k: usize = 0;
    while k < curves.len()
        invariant
            k <= curves@.len(),
            r@ == curves@.take(k as int),
        decreases curves@.len() - k,
    {
        r.push(curves[k]);
        k = k + 1;
        assert(r@ =~= curves@.take(k as int));
    }
    assert(curves@.take(k as int) =~= curves@);
    if clip < r.len() {
        r.set(clip, Some(c));
    } else {
        let ghost base = r@;
        while r.len() < clip
            invariant
                base == curves@,
                base.len() <= r@.len() <= clip,
                r@ =~= base + Seq::new((r@.len() - base.len()) as nat, |i: int| None::<C>),
            decreases clip - r@.len(),
        {
            r.push(None);
            assert(r@ =~= base + Seq::new((r@.len() - base.len()) as nat, |i: int| None::<C>));
        }
        r.push(Some(c));
    }
    r
}

} // verus!
