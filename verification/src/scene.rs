use vstd::prelude::*;

verus! {

/// Whether candidate `i` is the one a ray reaches first.
///
/// A candidate is the distance at which the ray meets one primitive, given as
/// a key that grows with the distance, or `None` where the ray misses it.  The
/// nearest candidate is a hit, no hit has a smaller key, and every hit before
/// it has a larger one: of two hits at the same distance the earlier wins.
pub open spec fn is_nearest(candidates: Seq<Option<u64>>, i: int) -> bool {
    &&& 0 <= i < candidates.len()
    &&& candidates[i].is_some()
    &&& forall|j: int|
        0 <= j < candidates.len() && (#[trigger] candidates[j]).is_some()
            ==> candidates[i].unwrap() <= candidates[j].unwrap()
    &&& forall|j: int|
        0 <= j < i && (#[trigger] candidates[j]).is_some()
            ==> candidates[i].unwrap() < candidates[j].unwrap()
}

/// Whether the ray misses every primitive.
pub open spec fn no_hit(candidates: Seq<Option<u64>>) -> bool {
    forall|j: int| 0 <= j < candidates.len() ==> (#[trigger] candidates[j]).is_none()
}

/// The primitive a ray reaches first.
#[derive(Clone, Copy, Debug, PartialEq, Eq, Structural)]
pub struct Nearest {
    /// The identity of the primitive: its place in the scene.
    pub index: usize,
    /// The key of the distance at which the ray meets it.
    pub key: u64,
}

/// Whether `r` is what a ray reaches first: the nearest candidate with its
/// key, or nothing where the ray misses every primitive.
pub open spec fn picks(candidates: Seq<Option<u64>>, r: Option<Nearest>) -> bool {
    match r {
        Some(n) => is_nearest(candidates, n.index as int) && candidates[n.index as int] == Some(
            n.key,
        ),
        None => no_hit(candidates),
    }
}

/// Picks the nearest of the candidates by one scan from the front.
pub fn nearest(candidates: &Vec<Option<u64>>) -> (r: Option<Nearest>)
    ensures
        picks(candidates@, r),
{
    let mut best: Option<Nearest> = None;
    let mut i: usize = 0;
    while i < candidates.len()
        invariant
            i <= candidates.len(),
            match best {
                Some(n) => is_nearest(candidates@.take(i as int), n.index as int)
                    && candidates@[n.index as int] == Some(n.key),
                None => no_hit(candidates@.take(i as int)),
            },
        decreases candidates.len() - i,
    {
        let closer = match (candidates[i], best) {
            (Some(key), Some(n)) => key < n.key,
            (Some(_), None) => true,
            (None, _) => false,
        };
        if closer {
            best = Some(Nearest { index: i, key: candidates[i].unwrap() });
        }
        i += 1;
    }
    assert(candidates@.take(i as int) =~= candidates@);
    best
}

/// Whether a ray that was aimed at a light reaches it: of all that the ray
/// meets, the light comes first.
pub fn reaches(candidates: &Vec<Option<u64>>, light: usize) -> (visible: bool)
    ensures
        visible == is_nearest(candidates@, light as int),
{
    match nearest(candidates) {
        Some(n) => {
            proof {
                if is_nearest(candidates@, light as int) {
                    lemma_nearest_unique(candidates@, n.index as int, light as int);
                }
            }
            n.index == light
        },
        None => false,
    }
}

/// There is one answer to what a ray reaches first.
pub proof fn lemma_picks_one(candidates: Seq<Option<u64>>, a: Option<Nearest>, b: Option<Nearest>)
    requires
        picks(candidates, a),
        picks(candidates, b),
    ensures
        a == b,
{
    match (a, b) {
        (Some(m), Some(n)) => {
            lemma_nearest_unique(candidates, m.index as int, n.index as int);
        },
        (Some(m), None) => {
            assert(candidates[m.index as int].is_some());
        },
        (None, Some(n)) => {
            assert(candidates[n.index as int].is_some());
        },
        (None, None) => {},
    }
}

/// If two candidates are both nearest, they are the same one.
pub proof fn lemma_nearest_unique(candidates: Seq<Option<u64>>, i: int, j: int)
    requires
        is_nearest(candidates, i),
        is_nearest(candidates, j),
    ensures
        i == j,
{
}

/// One primitive of a scene, with what the scene remembers of it.
pub struct Entry<P> {
    /// The primitive itself.
    pub object: P,
    /// Whether it emits light.
    pub emissive: bool,
}

/// What came of aiming at one light.
pub struct LightSample<S> {
    /// The identity of the light.
    pub light: usize,
    /// What was drawn for it: where to aim, and what the light would send.
    pub sample: S,
    /// Whether the ray that was aimed at the light reached it.
    pub visible: bool,
}

/// The primitives of a scene in the order in which they were added.
///
/// A primitive is known by its place in that order, which never changes: the
/// scene only grows.  Beside each primitive the scene keeps whether it emits
/// light.
pub struct Scene<P> {
    objects: Vec<Entry<P>>,
}

impl<P> Scene<P> {
    /// The entries, by identity.
    pub closed spec fn view(self) -> Seq<Entry<P>> {
        self.objects@
    }

    /// Whether `c` holds, for each primitive in order, something that `probe`
    /// may say of it.
    pub open spec fn answers<F: Fn(&P) -> Option<u64>>(self, probe: F, c: Seq<Option<u64>>) -> bool {
        &&& c.len() == self@.len()
        &&& forall|i: int|
            0 <= i < c.len() ==> call_ensures(probe, (&self@[i].object,), #[trigger] c[i])
    }

    /// Whether `c` holds, for each primitive in order, something that `probe`
    /// may say of it and of `sample`.
    pub open spec fn answers_about<S, G: Fn(&S, &P) -> Option<u64>>(
        self,
        probe: G,
        sample: S,
        c: Seq<Option<u64>>,
    ) -> bool {
        &&& c.len() == self@.len()
        &&& forall|i: int|
            0 <= i < c.len() ==> call_ensures(probe, (&sample, &self@[i].object), #[trigger] c[i])
    }

    /// Whether a light was judged visible or not as `probe` has it: the light
    /// is visible exactly if, of what `probe` said of the ray aimed at it, the
    /// light is the nearest.
    pub open spec fn judged<S, G: Fn(&S, &P) -> Option<u64>>(
        self,
        probe: G,
        entry: LightSample<S>,
    ) -> bool {
        exists|c: Seq<Option<u64>>| #[trigger]
            self.answers_about(probe, entry.sample, c) && entry.visible == is_nearest(
                c,
                entry.light as int,
            )
    }

    /// A scene without primitives.
    pub fn new() -> (s: Self)
        ensures
            s@.len() == 0,
    {
        Scene { objects: Vec::new() }
    }

    /// Adds a primitive and returns its identity.
    pub fn add(&mut self, object: P, emissive: bool) -> (id: usize)
        ensures
            id == old(self)@.len(),
            final(self)@ == old(self)@.push((Entry { object, emissive })),
    {
        let id = self.objects.len();
        self.objects.push(Entry { object, emissive });
        id
    }

    /// The number of primitives.
    pub fn len(&self) -> (n: usize)
        ensures
            n == self@.len(),
    {
        self.objects.len()
    }

    /// The primitive with identity `id`.
    pub fn get(&self, id: usize) -> (object: &P)
        requires
            id < self@.len(),
        ensures
            *object == self@[id as int].object,
    {
        &self.objects[id].object
    }

    /// Whether the primitive with identity `id` emits light.
    pub fn is_emissive(&self, id: usize) -> (b: bool)
        requires
            id < self@.len(),
        ensures
            b == self@[id as int].emissive,
    {
        self.objects[id].emissive
    }

    /// Whether `ids` names the primitives that emit light, each once and in
    /// ascending order.
    pub open spec fn lists_lights(self, ids: Seq<usize>) -> bool {
        &&& forall|k: int|
            0 <= k < ids.len() ==> (#[trigger] ids[k]) < self@.len() && self@[ids[k] as int].emissive
        &&& forall|k: int, l: int| 0 <= k < l < ids.len() ==> ids[k] < ids[l]
        &&& forall|i: int|
            0 <= i < self@.len() && (#[trigger] self@[i]).emissive ==> ids.contains(i as usize)
    }

    /// The identities of the primitives that emit light, in ascending order.
    pub fn lights(&self) -> (ids: Vec<usize>)
        ensures
            self.lists_lights(ids@),
    {
        let mut ids: Vec<usize> = Vec::new();
        let mut i: usize = 0;
        while i < self.objects.len()
            invariant
                i <= self.objects@.len(),
                forall|k: int| 0 <= k < ids@.len() ==> (#[trigger] ids@[k]) < i && self@[ids@[k] as int].emissive,
                forall|k: int, l: int| 0 <= k < l < ids@.len() ==> ids@[k] < ids@[l],
                forall|j: int|
                    0 <= j < i && (#[trigger] self@[j]).emissive ==> ids@.contains(j as usize),
            decreases self.objects@.len() - i,
        {
            if self.objects[i].emissive {
                let ghost before = ids@;
                ids.push(i);
                assert(ids@[before.len() as int] == i);
                assert forall|j: int| 0 <= j < i + 1 && (#[trigger] self@[j]).emissive implies ids@.contains(
                    j as usize,
                ) by {
                    if j < i {
                        let k = choose|k: int| 0 <= k < before.len() && before[k] == j as usize;
                        assert(ids@[k] == j as usize);
                    }
                }
            }
            i += 1;
        }
        ids
    }

    /// Finds the primitive that a ray reaches first.
    ///
    /// `probe` is asked once for each primitive, in order, at which distance
    /// the ray meets it.  The answer is the nearest of what it said.
    pub fn intersect<F: Fn(&P) -> Option<u64>>(&self, probe: F) -> (r: Option<Nearest>)
        requires
            forall|i: int| 0 <= i < self@.len() ==> call_requires(probe, (&self@[i].object,)),
        ensures
            exists|c: Seq<Option<u64>>| #[trigger] self.answers(probe, c) && picks(c, r),
    {
        let candidates = self.probe_all(probe);
        let r = nearest(&candidates);
        assert(self.answers(probe, candidates@));
        r
    }

    /// Whether a ray that was aimed at the light with identity `light`
    /// reaches it, and nothing else before it.
    ///
    /// `probe` is asked once for each primitive, in order, at which distance
    /// the ray meets it.  The light is reached if it is the nearest of what
    /// `probe` said: not if the ray meets nothing, another primitive first, or
    /// another one at the same distance that stands earlier in the scene.
    pub fn shadow_cast<F: Fn(&P) -> Option<u64>>(&self, probe: F, light: usize) -> (visible: bool)
        requires
            forall|i: int| 0 <= i < self@.len() ==> call_requires(probe, (&self@[i].object,)),
        ensures
            exists|c: Seq<Option<u64>>| #[trigger]
                self.answers(probe, c) && visible == is_nearest(c, light as int),
    {
        let candidates = self.probe_all(probe);
        let visible = reaches(&candidates, light);
        assert(self.answers(probe, candidates@));
        visible
    }

    /// Asks `probe` about each primitive in order.
    fn probe_all<F: Fn(&P) -> Option<u64>>(&self, probe: F) -> (candidates: Vec<Option<u64>>)
        requires
            forall|i: int| 0 <= i < self@.len() ==> call_requires(probe, (&self@[i].object,)),
        ensures
            self.answers(probe, candidates@),
    {
        let mut candidates: Vec<Option<u64>> = Vec::new();
        let mut i: usize = 0;
        while i < self.objects.len()
            invariant
                i <= self.objects@.len(),
                candidates@.len() == i,
                forall|j: int| 0 <= j < self@.len() ==> call_requires(probe, (&self@[j].object,)),
                forall|j: int|
                    0 <= j < i ==> call_ensures(
                        probe,
                        (&self@[j].object,),
                        #[trigger] candidates@[j],
                    ),
            decreases self.objects@.len() - i,
        {
            assert(call_requires(probe, (&self@[i as int].object,)));
            let c = probe(&self.objects[i].object);
            candidates.push(c);
            i += 1;
        }
        candidates
    }

    /// Aims once at each light of the scene and looks whether it is reached.
    ///
    /// For each primitive that emits light, in order, `sample` draws where to
    /// aim and what the light would send, and `probe` is then asked once for
    /// each primitive of the scene at which distance the ray so aimed meets
    /// it.  The light counts as visible if that ray reaches it first.  What a
    /// shading point receives is the sum over the visible ones.
    pub fn sample_lights<S, F: Fn(&P) -> S, G: Fn(&S, &P) -> Option<u64>>(
        &self,
        sample: F,
        probe: G,
    ) -> (r: Vec<LightSample<S>>)
        requires
            forall|i: int| 0 <= i < self@.len() ==> call_requires(sample, (&self@[i].object,)),
            forall|s: S, i: int|
                0 <= i < self@.len() ==> call_requires(probe, (&s, &self@[i].object)),
        ensures
            self.lists_lights(Seq::new(r@.len(), |k: int| r@[k].light)),
            forall|k: int|
                0 <= k < r@.len() ==> call_ensures(
                    sample,
                    (&self@[r@[k].light as int].object,),
                    (#[trigger] r@[k]).sample,
                ),
            forall|k: int| 0 <= k < r@.len() ==> self.judged(probe, #[trigger] r@[k]),
    {
        let mut r: Vec<LightSample<S>> = Vec::new();
        let mut i: usize = 0;
        while i < self.objects.len()
            invariant
                i <= self.objects@.len(),
                forall|j: int| 0 <= j < self@.len() ==> call_requires(sample, (&self@[j].object,)),
                forall|s: S, j: int|
                    0 <= j < self@.len() ==> call_requires(probe, (&s, &self@[j].object)),
                forall|k: int|
                    0 <= k < r@.len() ==> (#[trigger] r@[k]).light < i && self@[r@[k].light as int].emissive,
                forall|k: int, l: int| 0 <= k < l < r@.len() ==> r@[k].light < r@[l].light,
                forall|j: int|
                    0 <= j < i && (#[trigger] self@[j]).emissive ==> exists|k: int|
                        0 <= k < r@.len() && r@[k].light == j,
                forall|k: int|
                    0 <= k < r@.len() ==> call_ensures(
                        sample,
                        (&self@[r@[k].light as int].object,),
                        (#[trigger] r@[k]).sample,
                    ),
                forall|k: int| 0 <= k < r@.len() ==> self.judged(probe, #[trigger] r@[k]),
            decreases self.objects@.len() - i,
        {
            if self.objects[i].emissive {
                assert(call_requires(sample, (&self@[i as int].object,)));
                let s = sample(&self.objects[i].object);
                let mut candidates: Vec<Option<u64>> = Vec::new();
                let mut j: usize = 0;
                while j < self.objects.len()
                    invariant
                        j <= self.objects@.len(),
                        candidates@.len() == j,
                        forall|t: S, l: int|
                            0 <= l < self@.len() ==> call_requires(probe, (&t, &self@[l].object)),
                        forall|l: int|
                            0 <= l < j ==> call_ensures(
                                probe,
                                (&s, &self@[l].object),
                                #[trigger] candidates@[l],
                            ),
                    decreases self.objects@.len() - j,
                {
                    assert(call_requires(probe, (&s, &self@[j as int].object)));
                    let c = probe(&s, &self.objects[j].object);
                    candidates.push(c);
                    j += 1;
                }
                let visible = reaches(&candidates, i);
                let ghost before = r@;
                let ghost c = candidates@;
                r.push(LightSample { light: i, sample: s, visible });
                proof {
                    let n = before.len() as int;
                    assert(r@[n].light == i);
                    assert(self.answers_about(probe, r@[n].sample, c));
                    assert(self.judged(probe, r@[n]));
                    assert forall|k: int| 0 <= k < r@.len() implies self.judged(
                        probe,
                        #[trigger] r@[k],
                    ) by {
                        if k < n {
                            assert(r@[k] == before[k]);
                        }
                    }
                    assert forall|k: int| 0 <= k < r@.len() implies call_ensures(
                        sample,
                        (&self@[r@[k].light as int].object,),
                        (#[trigger] r@[k]).sample,
                    ) by {
                        if k < n {
                            assert(r@[k] == before[k]);
                        }
                    }
                    assert forall|l: int| 0 <= l < i + 1 && (#[trigger] self@[l]).emissive implies exists|
                        k: int,
                    |
                        0 <= k < r@.len() && r@[k].light == l by {
                        if l < i {
                            let k = choose|k: int| 0 <= k < before.len() && before[k].light == l;
                            assert(r@[k] == before[k]);
                        }
                    }
                }
            }
            i += 1;
        }
        proof {
            let ids = Seq::new(r@.len(), |k: int| r@[k].light);
            assert forall|l: int| 0 <= l < self@.len() && (#[trigger] self@[l]).emissive implies ids.contains(
                l as usize,
            ) by {
                let k = choose|k: int| 0 <= k < r@.len() && r@[k].light == l;
                assert(ids[k] == l as usize);
            }
        }
        r
    }
}

} // verus!
