//! Residency state and the per-frame scheduling decisions of the chunk streamer.
use vstd::prelude::*;
use crate::coords::{ChunkCoordinates, Point, center_spec, corner_spec, point_in_range,
    square_distance_spec, lemma_center_round_trip, containing_spec};

verus! {

/// Largest retention radius a manager accepts.
pub const MAX_RADIUS: i32 = 1024;

/// Priority weight of a candidate whose center is out of view, relative to one in view.
pub const HIDDEN_WEIGHT: u128 = 100;

/// The coordinates of a sequence of keyed entries.
pub open spec fn keys<C>(s: Seq<(ChunkCoordinates, C)>) -> Seq<ChunkCoordinates> {
    s.map_values(|e: (ChunkCoordinates, C)| e.0)
}

/// `c` lies in the retention volume of horizontal radius `r` around `home`
/// (vertical radius `r / 3`).
pub open spec fn within(home: ChunkCoordinates, c: ChunkCoordinates, r: int) -> bool {
    -r <= c.x - home.x <= r && -r <= c.z - home.z <= r && -(r / 3) <= c.y - home.y <= r / 3
}

/// The retention volume of radius `r` around `home` lies in the coordinate range.
pub open spec fn volume_in_range(home: ChunkCoordinates, r: int) -> bool {
    &&& i32::MIN + r <= home.x <= i32::MAX - r
    &&& i32::MIN + r / 3 <= home.y <= i32::MAX - r / 3
    &&& i32::MIN + r <= home.z <= i32::MAX - r
}

/// `c` lies in the retention volume and its offset from `home` comes before `(i, j, k)` in
/// the scan order of the volume (x outermost, z innermost).
pub open spec fn scanned_before(home: ChunkCoordinates, c: ChunkCoordinates, r: int, i: int, j: int, k: int) -> bool {
    let dx = c.x - home.x;
    let dy = c.y - home.y;
    let dz = c.z - home.z;
    within(home, c, r) && (dx < i || (dx == i && (dy < j || (dy == j && dz < k))))
}

/// The visibility predicate `f` reports `p` as visible.
pub open spec fn sees<F: Fn(Point) -> bool>(f: &F, p: Point) -> bool {
    f.ensures((p,), true)
}

/// `f` may be called on every point and answers each point one way only.
pub open spec fn is_predicate<F: Fn(Point) -> bool>(f: &F) -> bool {
    &&& forall|p: Point| f.requires((p,))
    &&& forall|p: Point, b: bool| #[trigger] f.ensures((p,), b) ==> b == sees(f, p)
}

/// Dispatch priority of a candidate, smaller first: squared distance from the viewpoint to
/// its center, weighted up for a candidate out of view (distance 0.1 vs 1.0, squared).
pub open spec fn priority(viewpoint: Point, c: ChunkCoordinates, visible: bool) -> int {
    square_distance_spec(viewpoint, center_spec(c)) * (if visible { 1int } else { HIDDEN_WEIGHT as int })
}

/// Priority of a candidate under the visibility predicate `f`.
pub open spec fn priority_under<F: Fn(Point) -> bool>(f: &F, viewpoint: Point, c: ChunkCoordinates) -> int {
    priority(viewpoint, c, sees(f, center_spec(c)))
}

/// Some corner of chunk `c` is visible under `f`.
pub open spec fn corner_seen<F: Fn(Point) -> bool>(f: &F, c: ChunkCoordinates) -> bool {
    exists|i: int| 0 <= i < 8 && sees(f, #[trigger] corner_spec(c, i))
}

/// `jobs` were taken from `cands` in priority order: nondecreasing priority, and none of the
/// candidates left behind has a smaller priority than any job taken.
pub open spec fn dispatched_in_priority_order<F: Fn(Point) -> bool>(
    f: &F,
    viewpoint: Point,
    cands: Seq<ChunkCoordinates>,
    jobs: Seq<ChunkCoordinates>,
) -> bool {
    &&& forall|i: int, j: int| 0 <= i < j < jobs.len() ==>
        priority_under(f, viewpoint, #[trigger] jobs[i]) <= priority_under(f, viewpoint, #[trigger] jobs[j])
    &&& forall|i: int, x: ChunkCoordinates| 0 <= i < jobs.len() && #[trigger] cands.contains(x) && !jobs.contains(x) ==>
        priority_under(f, viewpoint, #[trigger] jobs[i]) <= priority_under(f, viewpoint, x)
}

/// Of two candidates at the same positive distance from the viewpoint, one whose center is in
/// view and one whose center is not, the one in view goes first: whenever the hidden one is
/// dispatched, the visible one has been dispatched before it.
pub proof fn lemma_visible_dispatched_first<F: Fn(Point) -> bool>(
    f: &F,
    viewpoint: Point,
    cands: Seq<ChunkCoordinates>,
    jobs: Seq<ChunkCoordinates>,
    seen: ChunkCoordinates,
    hidden: ChunkCoordinates,
)
    requires
        dispatched_in_priority_order(f, viewpoint, cands, jobs),
        cands.contains(seen),
        cands.contains(hidden),
        square_distance_spec(viewpoint, center_spec(seen)) == square_distance_spec(viewpoint, center_spec(hidden)),
        square_distance_spec(viewpoint, center_spec(seen)) > 0,
        sees(f, center_spec(seen)),
        !sees(f, center_spec(hidden)),
    ensures
        jobs.contains(hidden) ==> exists|i: int, j: int|
            0 <= i < j < jobs.len() && #[trigger] jobs[i] == seen && #[trigger] jobs[j] == hidden,
{
    let d = square_distance_spec(viewpoint, center_spec(seen));
    assert(priority_under(f, viewpoint, seen) == d);
    assert(priority_under(f, viewpoint, hidden) == d * 100);
    if jobs.contains(hidden) {
        let j = choose|j: int| 0 <= j < jobs.len() && jobs[j] == hidden;
        if !jobs.contains(seen) {
            assert(priority_under(f, viewpoint, jobs[j]) <= priority_under(f, viewpoint, seen));
        } else {
            let i = choose|i: int| 0 <= i < jobs.len() && jobs[i] == seen;
            if j < i {
                assert(priority_under(f, viewpoint, jobs[j]) <= priority_under(f, viewpoint, jobs[i]));
            }
            assert(i != j);
            assert(jobs[i] == seen && jobs[j] == hidden);
        }
    }
}

proof fn lemma_keys_push<C>(s: Seq<(ChunkCoordinates, C)>, e: (ChunkCoordinates, C))
    ensures
        keys(s.push(e)) == keys(s).push(e.0),
{
    assert(keys(s.push(e)) =~= keys(s).push(e.0));
}

proof fn lemma_keys_remove<C>(s: Seq<(ChunkCoordinates, C)>, i: int)
    requires
        0 <= i < s.len(),
    ensures
        keys(s.remove(i)) == keys(s).remove(i),
{
    assert(keys(s.remove(i)) =~= keys(s).remove(i));
}

proof fn lemma_concat_contains<T>(a: Seq<T>, b: Seq<T>, x: T)
    ensures
        (a + b).contains(x) <==> a.contains(x) || b.contains(x),
{
    if (a + b).contains(x) {
        let k = choose|k: int| 0 <= k < (a + b).len() && (a + b)[k] == x;
        if k < a.len() {
            assert(a[k] == x);
        } else {
            assert(b[k - a.len()] == x);
        }
    }
    if a.contains(x) {
        let k = choose|k: int| 0 <= k < a.len() && a[k] == x;
        assert((a + b)[k] == x);
    }
    if b.contains(x) {
        let k = choose|k: int| 0 <= k < b.len() && b[k] == x;
        assert((a + b)[a.len() + k] == x);
    }
}

proof fn lemma_push_contains<T>(s: Seq<T>, x: T)
    ensures
        forall|y: T| #[trigger] s.push(x).contains(y) <==> s.contains(y) || y == x,
{
    assert forall|y: T| s.push(x).contains(y) implies s.contains(y) || y == x by {
        let k = choose|k: int| 0 <= k < s.push(x).len() && s.push(x)[k] == y;
        if k < s.len() {
            assert(s[k] == y);
        }
    }
    assert forall|y: T| s.contains(y) implies s.push(x).contains(y) by {
        let k = choose|k: int| 0 <= k < s.len() && s[k] == y;
        assert(s.push(x)[k] == y);
    }
    assert(s.push(x)[s.len() as int] == x);
}

proof fn lemma_push_fresh<T>(s: Seq<T>, x: T)
    requires
        s.no_duplicates(),
        !s.contains(x),
    ensures
        s.push(x).no_duplicates(),
        forall|y: T| s.push(x).contains(y) <==> s.contains(y) || y == x,
{
    lemma_push_contains(s, x);
    assert(s.push(x)[s.len() as int] == x);
}

proof fn lemma_remove_unique<T>(s: Seq<T>, i: int)
    requires
        s.no_duplicates(),
        0 <= i < s.len(),
    ensures
        s.remove(i).no_duplicates(),
        forall|y: T| s.remove(i).contains(y) <==> s.contains(y) && y != s[i],
{
    let r = s.remove(i);
    assert forall|a: int, b: int| 0 <= a < b < r.len() implies r[a] != r[b] by {
        let a2 = if a < i { a } else { a + 1 };
        let b2 = if b < i { b } else { b + 1 };
        assert(r[a] == s[a2] && r[b] == s[b2]);
    }
    assert forall|y: T| r.contains(y) implies s.contains(y) && y != s[i] by {
        let k = choose|k: int| 0 <= k < r.len() && r[k] == y;
        let k2 = if k < i { k } else { k + 1 };
        assert(s[k2] == y);
    }
    assert forall|y: T| s.contains(y) && y != s[i] implies r.contains(y) by {
        let k = choose|k: int| 0 <= k < s.len() && s[k] == y;
        if k < i {
            assert(r[k] == y);
        } else {
            assert(r[k - 1] == y);
        }
    }
}

/// Orders `items` by nondecreasing key, taking among equal keys the earliest item first;
/// `weights[i]` is the key of `items[i]`.
fn sort_by_keys(
    items: Vec<ChunkCoordinates>,
    weights: Vec<u128>,
    Ghost(kf): Ghost<spec_fn(ChunkCoordinates) -> int>,
) -> (r: Vec<ChunkCoordinates>)
    requires
        items.len() == weights.len(),
        forall|i: int| 0 <= i < items.len() ==> weights@[i] == kf(#[trigger] items@[i]),
        items@.no_duplicates(),
    ensures
        r.len() == items.len(),
        r@.no_duplicates(),
        forall|x: ChunkCoordinates| #[trigger] r@.contains(x) <==> items@.contains(x),
        forall|i: int, j: int| 0 <= i < j < r.len() ==> kf(#[trigger] r@[i]) <= kf(#[trigger] r@[j]),
{
    let mut rem = items;
    let mut w = weights;
    let mut out: Vec<ChunkCoordinates> = Vec::new();
    while rem.len() > 0
        invariant
            rem.len() == w.len(),
            forall|i: int| 0 <= i < rem.len() ==> w@[i] == kf(#[trigger] rem@[i]),
            rem@.no_duplicates(),
            out@.no_duplicates(),
            forall|x: ChunkCoordinates| #[trigger] out@.contains(x) ==> !rem@.contains(x),
            forall|x: ChunkCoordinates| #[trigger] items@.contains(x) <==> out@.contains(x) || rem@.contains(x),
            forall|i: int, j: int| 0 <= i < j < out.len() ==> kf(#[trigger] out@[i]) <= kf(#[trigger] out@[j]),
            forall|i: int, k: int| 0 <= i < out.len() && 0 <= k < rem.len() ==> kf(#[trigger] out@[i]) <= kf(#[trigger] rem@[k]),
            out.len() + rem.len() == items.len(),
        decreases rem.len(),
    {
        let mut m: usize = 0;
        let mut j: usize = 1;
        while j < w.len()
            invariant
                m < w.len(),
                1 <= j <= w.len(),
                forall|k: int| 0 <= k < j ==> w@[m as int] <= #[trigger] w@[k],
            decreases w.len() - j,
        {
            if w[j] < w[m] {
                m = j;
            }
            j += 1;
        }
        let ghost r0 = rem@;
        let ghost o0 = out@;
        assert(forall|k: int| 0 <= k < r0.len() ==> kf(r0[m as int]) <= kf(#[trigger] r0[k])) by {
            assert forall|k: int| 0 <= k < r0.len() implies kf(r0[m as int]) <= kf(#[trigger] r0[k]) by {
                assert(w@[k] == kf(r0[k]));
            }
        }
        let c = rem.remove(m);
        let _ = w.remove(m);
        proof {
            lemma_remove_unique(r0, m as int);
            lemma_push_fresh(o0, c);
        }
        out.push(c);
        proof {
            assert forall|x: ChunkCoordinates| #[trigger] out@.contains(x) implies !rem@.contains(x) by {
                assert(o0.contains(x) || x == c);
            }
            assert forall|x: ChunkCoordinates| #[trigger] items@.contains(x) <==> out@.contains(x) || rem@.contains(x) by {
                assert(out@.contains(x) <==> o0.contains(x) || x == c);
                assert(rem@.contains(x) <==> r0.contains(x) && x != c);
                assert(r0[m as int] == c);
            }
            assert forall|i: int| 0 <= i < rem.len() implies w@[i] == kf(#[trigger] rem@[i]) by {
                if i < m {
                    assert(rem@[i] == r0[i]);
                } else {
                    assert(rem@[i] == r0[i + 1]);
                }
            }
            assert forall|i: int, k: int| 0 <= i < out.len() && 0 <= k < rem.len() implies
                kf(#[trigger] out@[i]) <= kf(#[trigger] rem@[k]) by {
                let k2 = if k < m { k } else { k + 1 };
                assert(rem@[k] == r0[k2]);
                if i < o0.len() {
                    assert(out@[i] == o0[i]);
                }
            }
            assert forall|i: int, j: int| 0 <= i < j < out.len() implies kf(#[trigger] out@[i]) <= kf(#[trigger] out@[j]) by {
                if j == o0.len() {
                    assert(out@[i] == o0[i]);
                    assert(kf(o0[i]) <= kf(r0[m as int]));
                } else {
                    assert(out@[i] == o0[i] && out@[j] == o0[j]);
                }
            }
        }
    }
    out
}

/// Whether some corner of `c` is visible under `in_vision`.
fn any_corner_seen<F: Fn(Point) -> bool>(c: &ChunkCoordinates, in_vision: &F) -> (r: bool)
    requires
        is_predicate(in_vision),
    ensures
        r == corner_seen(in_vision, *c),
{
    let cs = c.corners();
    let mut m: usize = 0;
    while m < 8
        invariant
            m <= 8,
            is_predicate(in_vision),
            forall|q: int| 0 <= q < 8 ==> #[trigger] cs@[q] == corner_spec(*c, q),
            forall|q: int| 0 <= q < m ==> !sees(in_vision, #[trigger] corner_spec(*c, q)),
        decreases 8 - m,
    {
        let p = cs[m];
        let v = in_vision(p);
        proof {
            assert(in_vision.ensures((p,), v));
            assert(cs@[m as int] == corner_spec(*c, m as int));
        }
        if v {
            assert(sees(in_vision, corner_spec(*c, m as int)));
            return true;
        }
        m += 1;
    }
    false
}

/// No coordinate is both resident and in flight.
pub proof fn lemma_resident_and_in_flight_exclusive<C>(m: ChunkManager<C>, c: ChunkCoordinates)
    requires
        m.wf(),
    ensures
        !(m.is_active(c) && m.is_in_flight(c)),
{
}

/// What one maintenance step hands back to its caller: the evicted entries, whose resources
/// are to be released; the coordinates to generate, in dispatch order; and chunks displaced by
/// drained ones.
pub struct FrameWork<C> {
    pub evicted: Vec<(ChunkCoordinates, C)>,
    pub jobs: Vec<ChunkCoordinates>,
    pub displaced: Vec<C>,
}

/// Residency state of the streamer: the resident chunks keyed by coordinate, the coordinates
/// in flight, and the retention radius, watermark and per-frame drain cap it was built with.
pub struct ChunkManager<C> {
    active: Vec<(ChunkCoordinates, C)>,
    loading: Vec<ChunkCoordinates>,
    radius: i32,
    watermark: usize,
    per_frame_cap: usize,
}

impl<C> ChunkManager<C> {
    /// The resident chunks, keyed by coordinate.
    pub closed spec fn residents(self) -> Seq<(ChunkCoordinates, C)> {
        self.active@
    }

    /// The coordinates dispatched for generation whose result has not been drained.
    pub closed spec fn in_flight(self) -> Seq<ChunkCoordinates> {
        self.loading@
    }

    /// Horizontal retention radius, in chunks.
    pub closed spec fn radius_spec(self) -> int {
        self.radius as int
    }

    /// Largest number of coordinates in flight at once.
    pub closed spec fn watermark_spec(self) -> int {
        self.watermark as int
    }

    /// Largest number of completed generations drained per call.
    pub closed spec fn cap_spec(self) -> int {
        self.per_frame_cap as int
    }

    /// `c` has a resident chunk.
    pub open spec fn is_active(self, c: ChunkCoordinates) -> bool {
        keys(self.residents()).contains(c)
    }

    /// `c` is in flight.
    pub open spec fn is_in_flight(self, c: ChunkCoordinates) -> bool {
        self.in_flight().contains(c)
    }

    /// Keys are unique, no coordinate is both resident and in flight, the in-flight count is
    /// within the watermark and the radius is within bounds.
    pub open spec fn wf(self) -> bool {
        &&& keys(self.residents()).no_duplicates()
        &&& self.in_flight().no_duplicates()
        &&& forall|c: ChunkCoordinates| !(#[trigger] self.is_active(c) && self.is_in_flight(c))
        &&& self.in_flight().len() <= self.watermark_spec()
        &&& 0 <= self.radius_spec() <= MAX_RADIUS
    }

    /// An empty manager: nothing resident, nothing in flight.
    pub fn new(radius: i32, watermark: usize, per_frame_cap: usize) -> (r: Self)
        requires
            0 <= radius <= MAX_RADIUS,
        ensures
            r.wf(),
            r.residents().len() == 0,
            r.in_flight().len() == 0,
            r.radius_spec() == radius,
            r.watermark_spec() == watermark,
            r.cap_spec() == per_frame_cap,
    {
        ChunkManager { active: Vec::new(), loading: Vec::new(), radius, watermark, per_frame_cap }
    }

    pub fn radius(&self) -> (r: i32)
        ensures
            r == self.radius_spec(),
    {
        self.radius
    }

    pub fn watermark(&self) -> (r: usize)
        ensures
            r == self.watermark_spec(),
    {
        self.watermark
    }

    pub fn per_frame_cap(&self) -> (r: usize)
        ensures
            r == self.cap_spec(),
    {
        self.per_frame_cap
    }

    /// Number of resident chunks.
    pub fn active_len(&self) -> (r: usize)
        ensures
            r == self.residents().len(),
    {
        self.active.len()
    }

    /// Number of coordinates in flight.
    pub fn in_flight_len(&self) -> (r: usize)
        ensures
            r == self.in_flight().len(),
    {
        self.loading.len()
    }

    fn find_active(&self, c: &ChunkCoordinates) -> (r: Option<usize>)
        ensures
            match r {
                Some(i) => i < self.residents().len() && self.residents()[i as int].0 == *c,
                None => !self.is_active(*c),
            },
    {
        let mut i: usize = 0;
        while i < self.active.len()
            invariant
                i <= self.active.len(),
                forall|k: int| 0 <= k < i ==> self.active@[k].0 != *c,
            decreases self.active.len() - i,
        {
            if self.active[i].0 == *c {
                return Some(i);
            }
            i += 1;
        }
        proof {
            assert forall|k: int| 0 <= k < keys(self.active@).len() implies keys(self.active@)[k] != *c by {
                assert(keys(self.active@)[k] == self.active@[k].0);
            }
        }
        None
    }

    fn find_in_flight(&self, c: &ChunkCoordinates) -> (r: Option<usize>)
        ensures
            match r {
                Some(i) => i < self.in_flight().len() && self.in_flight()[i as int] == *c,
                None => !self.is_in_flight(*c),
            },
    {
        let mut i: usize = 0;
        while i < self.loading.len()
            invariant
                i <= self.loading.len(),
                forall|k: int| 0 <= k < i ==> self.loading@[k] != *c,
            decreases self.loading.len() - i,
        {
            if self.loading[i] == *c {
                return Some(i);
            }
            i += 1;
        }
        None
    }

    /// Whether `c` is resident.
    pub fn is_resident(&self, c: &ChunkCoordinates) -> (r: bool)
        ensures
            r == self.is_active(*c),
    {
        match self.find_active(c) {
            Some(i) => {
                assert(keys(self.active@)[i as int] == *c);
                true
            },
            None => false,
        }
    }

    /// Whether `c` has been dispatched and not yet drained.
    pub fn is_loading(&self, c: &ChunkCoordinates) -> (r: bool)
        ensures
            r == self.is_in_flight(*c),
    {
        self.find_in_flight(c).is_some()
    }

    /// The resident chunk at `c`, if any.
    pub fn get(&self, c: &ChunkCoordinates) -> (r: Option<&C>)
        ensures
            match r {
                Some(v) => self.residents().contains((*c, *v)),
                None => !self.is_active(*c),
            },
    {
        match self.find_active(c) {
            Some(i) => {
                assert(self.active@[i as int] == (*c, self.active@[i as int].1));
                Some(&self.active[i].1)
            },
            None => None,
        }
    }

    /// Removes every resident chunk outside the retention volume around `home` and hands the
    /// removed entries back, each once, for their resources to be released. In-flight
    /// coordinates are kept.
    pub fn evict(&mut self, home: ChunkCoordinates) -> (evicted: Vec<(ChunkCoordinates, C)>)
        requires
            old(self).wf(),
        ensures
            final(self).wf(),
            final(self).in_flight() == old(self).in_flight(),
            final(self).radius_spec() == old(self).radius_spec(),
            final(self).watermark_spec() == old(self).watermark_spec(),
            final(self).cap_spec() == old(self).cap_spec(),
            forall|e: (ChunkCoordinates, C)| #[trigger] final(self).residents().contains(e) <==>
                old(self).residents().contains(e) && within(home, e.0, old(self).radius_spec()),
            forall|e: (ChunkCoordinates, C)| #[trigger] evicted@.contains(e) <==>
                old(self).residents().contains(e) && !within(home, e.0, old(self).radius_spec()),
            forall|c: ChunkCoordinates| #[trigger] final(self).is_active(c) ==>
                within(home, c, final(self).radius_spec()),
            keys(evicted@).no_duplicates(),
    {
        let ghost old_active = self.active@;
        let mut rest: Vec<(ChunkCoordinates, C)> = Vec::new();
        std::mem::swap(&mut self.active, &mut rest);
        let mut evicted: Vec<(ChunkCoordinates, C)> = Vec::new();
        let r = self.radius;
        while rest.len() > 0
            invariant
                old(self).wf(),
                self.loading == old(self).loading,
                self.radius == r,
                r == old(self).radius,
                self.watermark == old(self).watermark,
                self.per_frame_cap == old(self).per_frame_cap,
                old_active == old(self).active@,
                keys(rest@).no_duplicates(),
                keys(self.active@).no_duplicates(),
                keys(evicted@).no_duplicates(),
                forall|c: ChunkCoordinates| keys(rest@).contains(c) ==> !keys(self.active@).contains(c) && !keys(evicted@).contains(c),
                forall|c: ChunkCoordinates| keys(self.active@).contains(c) ==> !keys(evicted@).contains(c),
                forall|c: ChunkCoordinates| #[trigger] keys(self.active@).contains(c) || keys(rest@).contains(c) || keys(evicted@).contains(c) ==> keys(old_active).contains(c),
                forall|e: (ChunkCoordinates, C)| #[trigger] old_active.contains(e) <==>
                    rest@.contains(e) || self.active@.contains(e) || evicted@.contains(e),
                forall|e: (ChunkCoordinates, C)| #[trigger] self.active@.contains(e) ==> within(home, e.0, r as int),
                forall|e: (ChunkCoordinates, C)| #[trigger] evicted@.contains(e) ==> !within(home, e.0, r as int),
            decreases rest.len(),
        {
            let ghost prev = rest@;
            let e = rest.pop().unwrap();
            proof {
                assert(rest@ == prev.remove(prev.len() - 1));
                lemma_keys_remove(prev, prev.len() - 1);
                assert(keys(prev)[prev.len() - 1] == e.0);
                lemma_remove_unique(keys(prev), prev.len() - 1);
                assert forall|x: (ChunkCoordinates, C)| prev.contains(x) <==> rest@.contains(x) || x == e by {
                    if prev.contains(x) && x != e {
                        let k = choose|k: int| 0 <= k < prev.len() && prev[k] == x;
                        assert(rest@[k] == x);
                    }
                    if rest@.contains(x) {
                        let k = choose|k: int| 0 <= k < rest@.len() && rest@[k] == x;
                        assert(prev[k] == x);
                    }
                    assert(prev[prev.len() - 1] == e);
                }
                assert(keys(prev).contains(e.0));
            }
            let dx = e.0.x as i64 - home.x as i64;
            let dy = e.0.y as i64 - home.y as i64;
            let dz = e.0.z as i64 - home.z as i64;
            let rv = r as i64;
            let keep = -rv <= dx && dx <= rv && -rv <= dz && dz <= rv && -(rv / 3) <= dy && dy <= rv / 3;
            let ghost a0 = self.active@;
            let ghost v0 = evicted@;
            proof {
                lemma_keys_push(self.active@, e);
                lemma_keys_push(evicted@, e);
                lemma_push_contains(self.active@, e);
                lemma_push_contains(evicted@, e);
                lemma_push_contains(keys(self.active@), e.0);
                lemma_push_contains(keys(evicted@), e.0);
            }
            if keep {
                proof { lemma_push_fresh(keys(self.active@), e.0); }
                self.active.push(e);
            } else {
                proof { lemma_push_fresh(keys(evicted@), e.0); }
                evicted.push(e);
            }
            proof {
                assert forall|c: ChunkCoordinates| keys(rest@).contains(c) implies
                    !keys(self.active@).contains(c) && !keys(evicted@).contains(c) by {
                    assert(keys(prev).contains(c) && c != e.0);
                }
                assert forall|c: ChunkCoordinates| keys(self.active@).contains(c) implies !keys(evicted@).contains(c) by {
                    assert(keys(a0).contains(c) || c == e.0);
                    assert(keys(v0).contains(c) ==> c != e.0);
                }
                assert forall|c: ChunkCoordinates| #[trigger] keys(self.active@).contains(c) || keys(rest@).contains(c) || keys(evicted@).contains(c) implies keys(old_active).contains(c) by {
                    assert(keys(a0).contains(c) || keys(prev).contains(c) || keys(v0).contains(c));
                }
                assert forall|x: (ChunkCoordinates, C)| #[trigger] old_active.contains(x) <==>
                    rest@.contains(x) || self.active@.contains(x) || evicted@.contains(x) by {
                    assert(a0.contains(x) ==> self.active@.contains(x));
                    assert(v0.contains(x) ==> evicted@.contains(x));
                }
            }
        }
        proof {
            assert(rest@.len() == 0);
            assert forall|c: ChunkCoordinates| #[trigger] self.is_active(c) implies within(home, c, r as int) by {
                let k = choose|k: int| 0 <= k < keys(self.active@).len() && keys(self.active@)[k] == c;
                assert(self.active@.contains(self.active@[k]));
            }
            assert forall|c: ChunkCoordinates| !(#[trigger] self.is_active(c) && self.is_in_flight(c)) by {
                if self.is_active(c) {
                    assert(keys(old_active).contains(c));
                    assert(old(self).is_active(c));
                }
            }
        }
        evicted
    }

    /// Records the completed generation of `c`: it leaves the in-flight set and `chunk`
    /// becomes its resident chunk. A chunk already resident at `c` is handed back.
    pub fn complete(&mut self, c: ChunkCoordinates, chunk: C) -> (displaced: Option<C>)
        requires
            old(self).wf(),
        ensures
            final(self).wf(),
            final(self).radius_spec() == old(self).radius_spec(),
            final(self).watermark_spec() == old(self).watermark_spec(),
            final(self).cap_spec() == old(self).cap_spec(),
            forall|x: ChunkCoordinates| #[trigger] final(self).is_in_flight(x) <==> old(self).is_in_flight(x) && x != c,
            forall|x: ChunkCoordinates| #[trigger] final(self).is_active(x) <==> old(self).is_active(x) || x == c,
            final(self).residents().contains((c, chunk)),
            forall|e: (ChunkCoordinates, C)| e.0 != c ==> (#[trigger] final(self).residents().contains(e) <==> old(self).residents().contains(e)),
            match displaced {
                Some(v) => old(self).residents().contains((c, v)),
                None => !old(self).is_active(c),
            },
            final(self).in_flight().len() <= old(self).in_flight().len(),
    {
        match self.find_in_flight(&c) {
            Some(i) => {
                proof { lemma_remove_unique(self.loading@, i as int); }
                self.loading.remove(i);
            },
            None => {},
        }
        let ghost a0 = self.active@;
        let displaced = match self.find_active(&c) {
            Some(i) => {
                proof {
                    lemma_keys_remove(a0, i as int);
                    lemma_remove_unique(keys(a0), i as int);
                    assert(keys(a0)[i as int] == c);
                }
                let e = self.active.remove(i);
                proof {
                    assert(a0[i as int] == e);
                    assert forall|x: (ChunkCoordinates, C)| x.0 != c implies (#[trigger] self.active@.contains(x) <==> a0.contains(x)) by {
                        if a0.contains(x) {
                            let k = choose|k: int| 0 <= k < a0.len() && a0[k] == x;
                            assert(k != i);
                            if k < i { assert(self.active@[k] == x); } else { assert(self.active@[k - 1] == x); }
                        }
                        if self.active@.contains(x) {
                            let k = choose|k: int| 0 <= k < self.active@.len() && self.active@[k] == x;
                            if k < i { assert(a0[k] == x); } else { assert(a0[k + 1] == x); }
                        }
                    }
                }
                Some(e.1)
            },
            None => {
                proof {
                    assert forall|x: (ChunkCoordinates, C)| a0.contains(x) implies x.0 != c by {
                        let k = choose|k: int| 0 <= k < a0.len() && a0[k] == x;
                        assert(keys(a0)[k] == x.0);
                    }
                }
                None
            },
        };
        let ghost a1 = self.active@;
        proof {
            lemma_keys_push(a1, (c, chunk));
            lemma_push_contains(a1, (c, chunk));
            assert(!keys(a1).contains(c));
            lemma_push_fresh(keys(a1), c);
        }
        self.active.push((c, chunk));
        proof {
            assert forall|x: ChunkCoordinates| #[trigger] self.is_active(x) <==> old(self).is_active(x) || x == c by {
                if x != c && old(self).is_active(x) {
                    let k = choose|k: int| 0 <= k < a0.len() && keys(a0)[k] == x;
                    assert(a0.contains(a0[k]));
                    assert(a1.contains(a0[k]));
                    let k1 = choose|k1: int| 0 <= k1 < a1.len() && a1[k1] == a0[k];
                    assert(keys(a1)[k1] == x);
                }
                if x != c && keys(a1).contains(x) {
                    let k1 = choose|k1: int| 0 <= k1 < a1.len() && keys(a1)[k1] == x;
                    assert(a1.contains(a1[k1]));
                    assert(a0.contains(a1[k1]));
                    let k = choose|k: int| 0 <= k < a0.len() && a0[k] == a1[k1];
                    assert(keys(a0)[k] == x);
                }
            }
        }
        displaced
    }

    /// Sends candidates into flight, highest priority first, while the in-flight count is
    /// under the watermark. Returns the dispatched coordinates in dispatch order.
    pub fn dispatch<F: Fn(Point) -> bool>(
        &mut self,
        viewpoint: Point,
        candidates: Vec<ChunkCoordinates>,
        in_vision: &F,
    ) -> (jobs: Vec<ChunkCoordinates>)
        requires
            old(self).wf(),
            point_in_range(viewpoint),
            is_predicate(in_vision),
            candidates@.no_duplicates(),
            forall|c: ChunkCoordinates| #[trigger] candidates@.contains(c) ==>
                !old(self).is_active(c) && !old(self).is_in_flight(c),
        ensures
            final(self).wf(),
            final(self).residents() == old(self).residents(),
            final(self).radius_spec() == old(self).radius_spec(),
            final(self).watermark_spec() == old(self).watermark_spec(),
            final(self).cap_spec() == old(self).cap_spec(),
            final(self).in_flight() == old(self).in_flight() + jobs@,
            jobs.len() == vstd::math::min(
                old(self).watermark_spec() - old(self).in_flight().len(),
                candidates.len() as int,
            ),
            jobs@.no_duplicates(),
            forall|c: ChunkCoordinates| #[trigger] jobs@.contains(c) ==> candidates@.contains(c),
            jobs.len() < old(self).watermark_spec() - old(self).in_flight().len() ==>
                forall|c: ChunkCoordinates| #[trigger] candidates@.contains(c) ==> jobs@.contains(c),
            dispatched_in_priority_order(in_vision, viewpoint, candidates@, jobs@),
    {
        let ghost kf = |c: ChunkCoordinates| priority_under(in_vision, viewpoint, c);
        let mut weights: Vec<u128> = Vec::new();
        let mut i: usize = 0;
        while i < candidates.len()
            invariant
                i <= candidates.len(),
                weights.len() == i,
                is_predicate(in_vision),
                point_in_range(viewpoint),
                forall|c: ChunkCoordinates| #[trigger] kf(c) == priority_under(in_vision, viewpoint, c),
                forall|k: int| 0 <= k < i ==> weights@[k] == kf(#[trigger] candidates@[k]),
            decreases candidates.len() - i,
        {
            let c = candidates[i];
            let ctr = c.center();
            proof {
                lemma_center_round_trip(c);
            }
            let vis = in_vision(ctr);
            let d = viewpoint.square_distance(&ctr);
            let w = if vis { d } else { d * HIDDEN_WEIGHT };
            proof {
                assert(in_vision.ensures((ctr,), vis));
                assert(vis == sees(in_vision, ctr));
                assert(w as int == priority(viewpoint, c, vis));
                assert(w as int == kf(c));
            }
            weights.push(w);
            i += 1;
        }
        let ghost cands = candidates@;
        let sorted = sort_by_keys(candidates, weights, Ghost(kf));
        let mut jobs: Vec<ChunkCoordinates> = Vec::new();
        let mut k: usize = 0;
        while self.loading.len() < self.watermark && k < sorted.len()
            invariant
                k <= sorted.len(),
                jobs@ == sorted@.take(k as int),
                self.loading@ == old(self).loading@ + jobs@,
                self.active == old(self).active,
                self.radius == old(self).radius,
                self.watermark == old(self).watermark,
                self.per_frame_cap == old(self).per_frame_cap,
                old(self).loading.len() <= self.watermark,
                self.loading.len() <= self.watermark,
            decreases sorted.len() - k,
        {
            let c = sorted[k];
            self.loading.push(c);
            jobs.push(c);
            k += 1;
            assert(jobs@ =~= sorted@.take(k as int));
            assert(self.loading@ =~= old(self).loading@ + jobs@);
        }
        proof {
            let o = old(self).loading@;
            if jobs.len() < old(self).watermark_spec() - old(self).in_flight().len() {
                assert(k == sorted.len());
                assert(jobs@ =~= sorted@);
            }
            assert forall|x: ChunkCoordinates| #[trigger] jobs@.contains(x) implies cands.contains(x) by {
                let m = choose|m: int| 0 <= m < jobs@.len() && jobs@[m] == x;
                assert(sorted@[m] == x);
                assert(sorted@.contains(x));
            }
            assert forall|a: int, b: int| 0 <= a < b < self.loading@.len() implies self.loading@[a] != self.loading@[b] by {
                if b < o.len() {
                } else if a < o.len() {
                    assert(jobs@.contains(self.loading@[b]));
                    assert(self.loading@[a] == o[a]);
                    assert(o.contains(o[a]));
                } else {
                    assert(self.loading@[a] == sorted@[a - o.len()]);
                    assert(self.loading@[b] == sorted@[b - o.len()]);
                }
            }
            assert(self.residents() == old(self).residents());
            assert(self.in_flight().len() <= self.watermark_spec());
            assert forall|c: ChunkCoordinates| !(#[trigger] self.is_active(c) && self.is_in_flight(c)) by {
                if self.is_in_flight(c) && o.contains(c) {
                    assert(old(self).is_in_flight(c));
                    assert(!old(self).is_active(c));
                }
                if self.is_in_flight(c) && !o.contains(c) {
                    let m = choose|m: int| 0 <= m < self.loading@.len() && self.loading@[m] == c;
                    assert(self.loading@[m] == jobs@[m - o.len()]);
                    assert(jobs@.contains(c));
                    assert(cands.contains(c));
                }
            }
            assert forall|a: int, x: ChunkCoordinates| 0 <= a < jobs@.len() && #[trigger] cands.contains(x) && !jobs@.contains(x) implies
                priority_under(in_vision, viewpoint, #[trigger] jobs@[a]) <= priority_under(in_vision, viewpoint, x) by {
                assert(sorted@.contains(x));
                let m = choose|m: int| 0 <= m < sorted@.len() && sorted@[m] == x;
                if m < k {
                    assert(jobs@[m] == x);
                }
                assert(jobs@[a] == sorted@[a]);
                assert(kf(sorted@[a]) <= kf(sorted@[m]));
            }
            assert forall|a: int, b: int| 0 <= a < b < jobs@.len() implies
                priority_under(in_vision, viewpoint, #[trigger] jobs@[a]) <= priority_under(in_vision, viewpoint, #[trigger] jobs@[b]) by {
                assert(jobs@[a] == sorted@[a] && jobs@[b] == sorted@[b]);
                assert(kf(sorted@[a]) <= kf(sorted@[b]));
            }
        }
        jobs
    }

    /// Every coordinate of the retention volume around `home` that is neither resident nor
    /// in flight, in scan order.
    pub fn candidates(&self, home: ChunkCoordinates) -> (r: Vec<ChunkCoordinates>)
        requires
            self.wf(),
            volume_in_range(home, self.radius_spec()),
        ensures
            r@.no_duplicates(),
            forall|c: ChunkCoordinates| #[trigger] r@.contains(c) <==>
                within(home, c, self.radius_spec()) && !self.is_active(c) && !self.is_in_flight(c),
    {
        let rad = self.radius;
        let vr = rad / 3;
        let ghost rr = rad as int;
        let mut out: Vec<ChunkCoordinates> = Vec::new();
        let mut i: i32 = -rad;
        while i <= rad
            invariant
                self.wf(),
                rr == self.radius_spec(),
                rad as int == rr,
                vr as int == rr / 3,
                volume_in_range(home, rr),
                -rad <= i <= rad + 1,
                out@.no_duplicates(),
                forall|c: ChunkCoordinates| #[trigger] out@.contains(c) <==>
                    scanned_before(home, c, rr, i as int, -(rr / 3), -rr) && !self.is_active(c) && !self.is_in_flight(c),
            decreases rad + 1 - i,
        {
            let mut j: i32 = -vr;
            while j <= vr
                invariant
                    self.wf(),
                    rr == self.radius_spec(),
                    rad as int == rr,
                    vr as int == rr / 3,
                    volume_in_range(home, rr),
                    -rad <= i <= rad,
                    -vr <= j <= vr + 1,
                    out@.no_duplicates(),
                    forall|c: ChunkCoordinates| #[trigger] out@.contains(c) <==>
                        scanned_before(home, c, rr, i as int, j as int, -rr) && !self.is_active(c) && !self.is_in_flight(c),
                decreases vr + 1 - j,
            {
                let mut k: i32 = -rad;
                while k <= rad
                    invariant
                        self.wf(),
                        rr == self.radius_spec(),
                        rad as int == rr,
                        vr as int == rr / 3,
                        volume_in_range(home, rr),
                        -rad <= i <= rad,
                        -vr <= j <= vr,
                        -rad <= k <= rad + 1,
                        out@.no_duplicates(),
                        forall|c: ChunkCoordinates| #[trigger] out@.contains(c) <==>
                            scanned_before(home, c, rr, i as int, j as int, k as int) && !self.is_active(c) && !self.is_in_flight(c),
                    decreases rad + 1 - k,
                {
                    let c = ChunkCoordinates { x: home.x + i, y: home.y + j, z: home.z + k };
                    let ghost o0 = out@;
                    let absent = !self.is_resident(&c) && !self.is_loading(&c);
                    if absent {
                        proof {
                            lemma_push_fresh(o0, c);
                        }
                        out.push(c);
                    }
                    proof {
                        assert(within(home, c, rr));
                        assert(absent == (!self.is_active(c) && !self.is_in_flight(c)));
                        assert(absent ==> out@ == o0.push(c));
                        assert(!absent ==> out@ == o0);
                        assert forall|x: ChunkCoordinates| #[trigger] out@.contains(x) <==>
                            scanned_before(home, x, rr, i as int, j as int, k + 1) && !self.is_active(x) && !self.is_in_flight(x) by {
                            if x.x - home.x == i && x.y - home.y == j && x.z - home.z == k {
                                assert(x == c);
                            }
                            assert(scanned_before(home, x, rr, i as int, j as int, k + 1) <==>
                                scanned_before(home, x, rr, i as int, j as int, k as int) || x == c);
                            assert(o0.contains(x) <==> scanned_before(home, x, rr, i as int, j as int, k as int) && !self.is_active(x) && !self.is_in_flight(x));
                        }
                    }
                    k += 1;
                }
                j += 1;
                proof {
                    assert forall|x: ChunkCoordinates| scanned_before(home, x, rr, i as int, j - 1, rr + 1) == #[trigger] scanned_before(home, x, rr, i as int, j as int, -rr) by {}
                }
            }
            i += 1;
            proof {
                assert forall|x: ChunkCoordinates| scanned_before(home, x, rr, i - 1, rr / 3 + 1, -rr) == #[trigger] scanned_before(home, x, rr, i as int, -(rr / 3), -rr) by {}
            }
        }
        proof {
            assert forall|x: ChunkCoordinates| #[trigger] scanned_before(home, x, rr, rr + 1, -(rr / 3), -rr) == within(home, x, rr) by {}
        }
        out
    }

    /// Drains completed generations from the front of `ready`, at most the per-frame cap of
    /// them; the rest stay queued, in order. Each drained payload is turned into a resident
    /// chunk by `build`. Chunks displaced by a drained one are handed back.
    pub fn drain<P, B: Fn(P) -> C>(
        &mut self,
        ready: &mut Vec<(ChunkCoordinates, P)>,
        build: &B,
    ) -> (displaced: Vec<C>)
        requires
            old(self).wf(),
            forall|p: P| #[trigger] build.requires((p,)),
        ensures
            final(self).wf(),
            final(self).radius_spec() == old(self).radius_spec(),
            final(self).watermark_spec() == old(self).watermark_spec(),
            final(self).cap_spec() == old(self).cap_spec(),
            ({
                let n = vstd::math::min(old(self).cap_spec(), old(ready)@.len() as int);
                let drained = keys(old(ready)@.take(n));
                &&& final(ready)@ == old(ready)@.subrange(n, old(ready)@.len() as int)
                &&& forall|x: ChunkCoordinates| #[trigger] final(self).is_in_flight(x) <==>
                    old(self).is_in_flight(x) && !drained.contains(x)
                &&& forall|x: ChunkCoordinates| #[trigger] final(self).is_active(x) <==>
                    old(self).is_active(x) || drained.contains(x)
            }),
    {
        let ghost r0 = ready@;
        let mut displaced: Vec<C> = Vec::new();
        let mut taken: usize = 0;
        while taken < self.per_frame_cap && ready.len() > 0
            invariant
                self.wf(),
                self.radius == old(self).radius,
                self.watermark == old(self).watermark,
                self.per_frame_cap == old(self).per_frame_cap,
                r0 == old(ready)@,
                taken <= self.per_frame_cap,
                taken <= r0.len(),
                ready@ == r0.subrange(taken as int, r0.len() as int),
                forall|p: P| #[trigger] build.requires((p,)),
                forall|x: ChunkCoordinates| #[trigger] self.is_in_flight(x) <==>
                    old(self).is_in_flight(x) && !keys(r0.take(taken as int)).contains(x),
                forall|x: ChunkCoordinates| #[trigger] self.is_active(x) <==>
                    old(self).is_active(x) || keys(r0.take(taken as int)).contains(x),
            decreases ready.len(),
        {
            let ghost before = ready@;
            let (c, p) = ready.remove(0);
            proof {
                assert(before[0] == r0[taken as int]);
                assert(r0.take(taken + 1) == r0.take(taken as int).push(r0[taken as int]));
                lemma_keys_push(r0.take(taken as int), r0[taken as int]);
                lemma_push_contains(keys(r0.take(taken as int)), c);
                assert(ready@ =~= r0.subrange(taken + 1, r0.len() as int));
            }
            let chunk = build(p);
            match self.complete(c, chunk) {
                Some(old_chunk) => displaced.push(old_chunk),
                None => {},
            }
            taken += 1;
        }
        proof {
            assert(taken as int == vstd::math::min(old(self).cap_spec(), r0.len() as int));
        }
        displaced
    }

    /// The resident chunks with a corner in view, nearest center first.
    pub fn draw_list<F: Fn(Point) -> bool>(&self, viewpoint: Point, in_vision: &F) -> (r: Vec<ChunkCoordinates>)
        requires
            self.wf(),
            point_in_range(viewpoint),
            is_predicate(in_vision),
        ensures
            r@.no_duplicates(),
            forall|c: ChunkCoordinates| #[trigger] r@.contains(c) <==> self.is_active(c) && corner_seen(in_vision, c),
            forall|i: int, j: int| 0 <= i < j < r.len() ==>
                square_distance_spec(viewpoint, center_spec(#[trigger] r@[i]))
                    <= square_distance_spec(viewpoint, center_spec(#[trigger] r@[j])),
    {
        let ghost kf = |c: ChunkCoordinates| square_distance_spec(viewpoint, center_spec(c));
        let mut shown: Vec<ChunkCoordinates> = Vec::new();
        let mut weights: Vec<u128> = Vec::new();
        let mut i: usize = 0;
        while i < self.active.len()
            invariant
                self.wf(),
                i <= self.active.len(),
                point_in_range(viewpoint),
                is_predicate(in_vision),
                shown.len() == weights.len(),
                shown@.no_duplicates(),
                forall|c: ChunkCoordinates| #[trigger] kf(c) == square_distance_spec(viewpoint, center_spec(c)),
                forall|k: int| 0 <= k < shown.len() ==> weights@[k] == kf(#[trigger] shown@[k]),
                forall|c: ChunkCoordinates| #[trigger] shown@.contains(c) <==>
                    keys(self.active@.take(i as int)).contains(c) && corner_seen(in_vision, c),
            decreases self.active.len() - i,
        {
            let c = self.active[i].0;
            let ghost s0 = shown@;
            proof {
                assert(self.active@.take(i + 1) == self.active@.take(i as int).push(self.active@[i as int]));
                lemma_keys_push(self.active@.take(i as int), self.active@[i as int]);
                lemma_push_contains(keys(self.active@.take(i as int)), c);
            }
            let seen = any_corner_seen(&c, in_vision);
            if seen {
                proof {
                    if s0.contains(c) {
                        let q = choose|q: int| 0 <= q < i && keys(self.active@.take(i as int))[q] == c;
                        assert(keys(self.active@)[q] == c);
                        assert(keys(self.active@)[i as int] == c);
                    }
                    lemma_push_fresh(s0, c);
                    lemma_center_round_trip(c);
                    assert(keys(self.active@)[i as int] == c);
                }
                let d = viewpoint.square_distance(&c.center());
                shown.push(c);
                weights.push(d);
            }
            proof {
                assert(seen ==> shown@ == s0.push(c));
                assert(!seen ==> shown@ == s0);
                assert forall|x: ChunkCoordinates| #[trigger] shown@.contains(x) <==>
                    keys(self.active@.take(i + 1)).contains(x) && corner_seen(in_vision, x) by {
                    assert(keys(self.active@.take(i + 1)).contains(x) <==> keys(self.active@.take(i as int)).contains(x) || x == c);
                    if seen {
                        assert(s0.push(c).contains(x) <==> s0.contains(x) || x == c);
                    }
                }
            }
            i += 1;
        }
        proof {
            assert(self.active@.take(self.active@.len() as int) == self.active@);
        }
        sort_by_keys(shown, weights, Ghost(kf))
    }

    /// One maintenance step around the viewpoint: evict what left the retention volume,
    /// dispatch absent coordinates of the volume by priority up to the watermark, then drain
    /// up to the per-frame cap of completed generations from `ready`.
    pub fn treadmill<F: Fn(Point) -> bool, P, B: Fn(P) -> C>(
        &mut self,
        viewpoint: Point,
        in_vision: &F,
        ready: &mut Vec<(ChunkCoordinates, P)>,
        build: &B,
    ) -> (r: FrameWork<C>)
        requires
            old(self).wf(),
            point_in_range(viewpoint),
            volume_in_range(containing_spec(viewpoint), old(self).radius_spec()),
            is_predicate(in_vision),
            forall|p: P| #[trigger] build.requires((p,)),
        ensures
            final(self).wf(),
            final(self).radius_spec() == old(self).radius_spec(),
            final(self).watermark_spec() == old(self).watermark_spec(),
            final(self).cap_spec() == old(self).cap_spec(),
            ({
                let home = containing_spec(viewpoint);
                let rad = old(self).radius_spec();
                let room = old(self).watermark_spec() - old(self).in_flight().len();
                let n = vstd::math::min(old(self).cap_spec(), old(ready)@.len() as int);
                let drained = keys(old(ready)@.take(n));
                &&& forall|e: (ChunkCoordinates, C)| #[trigger] r.evicted@.contains(e) <==>
                    old(self).residents().contains(e) && !within(home, e.0, rad)
                &&& keys(r.evicted@).no_duplicates()
                &&& r.jobs@.no_duplicates()
                &&& forall|c: ChunkCoordinates| #[trigger] r.jobs@.contains(c) ==>
                    within(home, c, rad) && !old(self).is_active(c) && !old(self).is_in_flight(c)
                &&& r.jobs.len() <= room
                &&& forall|c: ChunkCoordinates|
                    within(home, c, rad) && !old(self).is_active(c) && !old(self).is_in_flight(c)
                    && r.jobs.len() < room ==> #[trigger] r.jobs@.contains(c)
                &&& forall|i: int, j: int| 0 <= i < j < r.jobs.len() ==>
                    priority_under(in_vision, viewpoint, #[trigger] r.jobs@[i])
                        <= priority_under(in_vision, viewpoint, #[trigger] r.jobs@[j])
                &&& forall|i: int, x: ChunkCoordinates| 0 <= i < r.jobs.len()
                    && within(home, x, rad) && !old(self).is_active(x) && !old(self).is_in_flight(x)
                    && !(#[trigger] r.jobs@.contains(x)) ==>
                    priority_under(in_vision, viewpoint, #[trigger] r.jobs@[i]) <= priority_under(in_vision, viewpoint, x)
                &&& final(ready)@ == old(ready)@.subrange(n, old(ready)@.len() as int)
                &&& forall|x: ChunkCoordinates| #[trigger] final(self).is_in_flight(x) <==>
                    (old(self).is_in_flight(x) || r.jobs@.contains(x)) && !drained.contains(x)
                &&& forall|x: ChunkCoordinates| #[trigger] final(self).is_active(x) <==>
                    (old(self).is_active(x) && within(home, x, rad)) || drained.contains(x)
            }),
    {
        let home = ChunkCoordinates::containing_world_pos(viewpoint);
        let ghost s0 = *self;
        let evicted = self.evict(home);
        let ghost s1 = *self;
        proof {
            assert forall|c: ChunkCoordinates| #[trigger] s1.is_active(c) <==> s0.is_active(c) && within(home, c, s0.radius_spec()) by {
                if s0.is_active(c) && within(home, c, s0.radius_spec()) {
                    let k = choose|k: int| 0 <= k < keys(s0.residents()).len() && keys(s0.residents())[k] == c;
                    assert(s0.residents().contains(s0.residents()[k]));
                    assert(s1.residents().contains(s0.residents()[k]));
                    let k1 = choose|k1: int| 0 <= k1 < s1.residents().len() && s1.residents()[k1] == s0.residents()[k];
                    assert(keys(s1.residents())[k1] == c);
                }
                if s1.is_active(c) {
                    let k1 = choose|k1: int| 0 <= k1 < keys(s1.residents()).len() && keys(s1.residents())[k1] == c;
                    assert(s1.residents().contains(s1.residents()[k1]));
                    let k = choose|k: int| 0 <= k < s0.residents().len() && s0.residents()[k] == s1.residents()[k1];
                    assert(keys(s0.residents())[k] == c);
                }
            }
        }
        let cands = self.candidates(home);
        let ghost cs = cands@;
        let jobs = self.dispatch(viewpoint, cands, in_vision);
        let ghost s2 = *self;
        proof {
            assert forall|c: ChunkCoordinates| #[trigger] s2.is_active(c) <==> s0.is_active(c) && within(home, c, s0.radius_spec()) by {
                assert(s2.residents() == s1.residents());
                assert(s1.is_active(c) <==> s0.is_active(c) && within(home, c, s0.radius_spec()));
            }
            assert forall|c: ChunkCoordinates| #[trigger] s2.is_in_flight(c) <==> s0.is_in_flight(c) || jobs@.contains(c) by {
                lemma_concat_contains(s0.in_flight(), jobs@, c);
            }
            assert forall|c: ChunkCoordinates|
                within(home, c, s0.radius_spec()) && !s0.is_active(c) && !s0.is_in_flight(c)
                implies #[trigger] cs.contains(c) by {
                assert(!s1.is_active(c));
            }
            assert forall|i: int, x: ChunkCoordinates| 0 <= i < jobs.len()
                && within(home, x, s0.radius_spec()) && !s0.is_active(x) && !s0.is_in_flight(x)
                && !(#[trigger] jobs@.contains(x)) implies
                priority_under(in_vision, viewpoint, #[trigger] jobs@[i]) <= priority_under(in_vision, viewpoint, x) by {
                assert(cs.contains(x));
            }
            assert(s1.in_flight() == s0.in_flight() && s1.watermark_spec() == s0.watermark_spec());
            assert forall|c: ChunkCoordinates|
                within(home, c, s0.radius_spec()) && !s0.is_active(c) && !s0.is_in_flight(c)
                && jobs.len() < s0.watermark_spec() - s0.in_flight().len() implies #[trigger] jobs@.contains(c) by {
                assert(cs.contains(c));
            }
        }
        let displaced = self.drain(ready, build);
        FrameWork { evicted, jobs, displaced }
    }
}

} // verus!
