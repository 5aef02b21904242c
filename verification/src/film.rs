use vstd::prelude::*;

verus! {

/// Why two partial renders cannot be merged.
#[derive(Clone, Copy, Debug, PartialEq, Eq, Structural)]
pub enum MergeError {
    /// The two images differ in width or in height.
    DimensionMismatch { width: usize, height: usize, other_width: usize, other_height: usize },
    /// The two sample counts together do not fit into the counter.
    TooManySamples,
}

/// Whether every row has `width` pixels.
pub open spec fn rectangular<P>(rows: Seq<Vec<P>>, width: nat) -> bool {
    forall|y: int| 0 <= y < rows.len() ==> (#[trigger] rows[y])@.len() == width
}

/// An image in the making: for each pixel the light gathered so far, and the
/// number of samples that went into every one of them.
///
/// The image is a grid: each of its rows has `width` pixels.  What a pixel is
/// the image does not ask.
pub struct PartialImage<P> {
    width: usize,
    image: Vec<Vec<P>>,
    samples: usize,
}

impl<P> PartialImage<P> {
    #[verifier::type_invariant]
    closed spec fn wf(self) -> bool {
        rectangular(self.image@, self.width as nat)
    }

    /// The number of pixels in a row.
    pub closed spec fn spec_width(&self) -> usize {
        self.width
    }

    /// The number of rows.
    pub closed spec fn spec_height(&self) -> usize {
        self.image.len()
    }

    /// The number of samples gathered in each pixel.
    pub closed spec fn spec_samples(&self) -> usize {
        self.samples
    }

    /// The pixel in column `x` of row `y`, row 0 being the top one.
    pub closed spec fn pixel(&self, x: int, y: int) -> P {
        self.image@[y]@[x]
    }

    /// An image without rows and without samples.
    pub fn empty() -> (r: Self)
        ensures
            r.spec_width() == 0,
            r.spec_height() == 0,
            r.spec_samples() == 0,
    {
        PartialImage { width: 0, image: Vec::new(), samples: 0 }
    }

    #[verifier::when_used_as_spec(spec_width)]
    pub fn width(&self) -> (w: usize)
        ensures
            w == self.spec_width(),
    {
        self.width
    }

    #[verifier::when_used_as_spec(spec_height)]
    pub fn height(&self) -> (h: usize)
        ensures
            h == self.spec_height(),
    {
        self.image.len()
    }

    #[verifier::when_used_as_spec(spec_samples)]
    pub fn samples(&self) -> (n: usize)
        ensures
            n == self.spec_samples(),
    {
        self.samples
    }

    /// The pixel in column `x` of row `y`.
    pub fn get(&self, x: usize, y: usize) -> (p: &P)
        requires
            x < self.spec_width(),
            y < self.spec_height(),
        ensures
            *p == self.pixel(x as int, y as int),
    {
        proof {
            use_type_invariant(self);
        }
        &self.image[y][x]
    }

    /// Whether the image is the empty one: no rows, no width, no samples.
    pub open spec fn spec_is_empty(&self) -> bool {
        self.spec_width() == 0 && self.spec_height() == 0 && self.spec_samples() == 0
    }

    #[verifier::when_used_as_spec(spec_is_empty)]
    pub fn is_empty(&self) -> (b: bool)
        ensures
            b == self.spec_is_empty(),
    {
        self.width == 0 && self.image.len() == 0 && self.samples == 0
    }

    /// What is reported where `other` has not the size of this image.
    pub open spec fn mismatch(&self, other: &Self) -> MergeError {
        MergeError::DimensionMismatch {
            width: self.spec_width(),
            height: self.spec_height(),
            other_width: other.spec_width(),
            other_height: other.spec_height(),
        }
    }

    /// Whether the two images have the same width and the same height.
    pub open spec fn same_size(&self, other: &Self) -> bool {
        self.spec_width() == other.spec_width() && self.spec_height() == other.spec_height()
    }

    /// Makes an image of rows that are known to have `width` pixels each.
    pub(crate) fn from_grid(width: usize, rows: Vec<Vec<P>>, samples: usize) -> (image: Self)
        requires
            rectangular(rows@, width as nat),
        ensures
            image.spec_width() == width,
            image.spec_height() == rows@.len(),
            image.spec_samples() == samples,
            forall|x: int, y: int|
                0 <= x < width && 0 <= y < rows@.len() ==> #[trigger] image.pixel(x, y)
                    == rows@[y]@[x],
    {
        PartialImage { width, image: rows, samples }
    }

    /// Makes an image of rows that are already there.  There is an image
    /// exactly if each row has `width` pixels.
    pub fn from_rows(width: usize, rows: Vec<Vec<P>>, samples: usize) -> (r: Option<Self>)
        ensures
            r.is_some() <==> rectangular(rows@, width as nat),
            r.is_some() ==> r.unwrap().spec_width() == width,
            r.is_some() ==> r.unwrap().spec_height() == rows@.len(),
            r.is_some() ==> r.unwrap().spec_samples() == samples,
            r.is_some() ==> forall|x: int, y: int|
                0 <= x < width && 0 <= y < rows@.len() ==> #[trigger] r.unwrap().pixel(x, y)
                    == rows@[y]@[x],
    {
        let mut y: usize = 0;
        while y < rows.len()
            invariant
                y <= rows@.len(),
                rectangular(rows@.take(y as int), width as nat),
            decreases rows@.len() - y,
        {
            if rows[y].len() != width {
                return None;
            }
            assert forall|k: int| 0 <= k < y + 1 implies (#[trigger] rows@.take(y + 1)[k])@.len()
                == width by {
                if k < y {
                    assert(rows@.take(y as int)[k] == rows@[k]);
                }
            }
            y += 1;
        }
        assert(rows@.take(y as int) =~= rows@);
        Some(PartialImage { width, image: rows, samples })
    }
}

impl<P> PartialImage<P> {
    /// Makes an image of the same size and the same sample count, in which
    /// each pixel is what `f` makes of the pixel of this one.
    pub fn map<Q, F: Fn(&P) -> Q>(&self, f: F) -> (r: PartialImage<Q>)
        requires
            forall|x: int, y: int|
                0 <= x < self.spec_width() && 0 <= y < self.spec_height() ==> call_requires(
                    f,
                    (&#[trigger] self.pixel(x, y),),
                ),
        ensures
            r.spec_width() == self.spec_width(),
            r.spec_height() == self.spec_height(),
            r.spec_samples() == self.spec_samples(),
            forall|x: int, y: int|
                0 <= x < self.spec_width() && 0 <= y < self.spec_height() ==> call_ensures(
                    f,
                    (&self.pixel(x, y),),
                    #[trigger] r.pixel(x, y),
                ),
    {
        proof {
            use_type_invariant(self);
        }
        let width = self.width;
        let height = self.image.len();
        let mut image: Vec<Vec<Q>> = Vec::new();
        let mut y: usize = 0;
        while y < height
            invariant
                y <= height,
                height == self.image@.len(),
                width == self.width,
                rectangular(self.image@, width as nat),
                image@.len() == y,
                rectangular(image@, width as nat),
                forall|x: int, v: int|
                    0 <= x < width && 0 <= v < height ==> call_requires(
                        f,
                        (&#[trigger] self.pixel(x, v),),
                    ),
                forall|x: int, v: int|
                    0 <= x < width && 0 <= v < y ==> call_ensures(
                        f,
                        (&self.pixel(x, v),),
                        #[trigger] image@[v]@[x],
                    ),
            decreases height - y,
        {
            let mut row: Vec<Q> = Vec::new();
            let mut x: usize = 0;
            while x < width
                invariant
                    x <= width,
                    y < height,
                    height == self.image@.len(),
                    rectangular(self.image@, width as nat),
                    row@.len() == x,
                    forall|u: int, v: int|
                        0 <= u < width && 0 <= v < height ==> call_requires(
                            f,
                            (&#[trigger] self.pixel(u, v),),
                        ),
                    forall|u: int|
                        0 <= u < x ==> call_ensures(
                            f,
                            (&self.pixel(u, y as int),),
                            #[trigger] row@[u],
                        ),
                decreases width - x,
            {
                assert(self.image@[y as int]@.len() == width);
                assert(self.image@[y as int]@[x as int] == self.pixel(x as int, y as int));
                let q = f(&self.image[y][x]);
                row.push(q);
                x += 1;
            }
            image.push(row);
            y += 1;
        }
        let r = PartialImage { width, image, samples: self.samples };
        assert forall|x: int, v: int| 0 <= x < width && 0 <= v < height implies call_ensures(
            f,
            (&self.pixel(x, v),),
            #[trigger] r.pixel(x, v),
        ) by {
            assert(r.pixel(x, v) == image@[v]@[x]);
        }
        r
    }
}

impl<P: Copy> PartialImage<P> {
    /// Adds another partial render to this one, pixel by pixel.
    ///
    /// The empty image takes on whatever is added to it.  Any other image
    /// accepts only one of its own width and height, and says so before a
    /// single pixel is summed.  The sample counts add up.
    pub fn add<F: Fn(P, P) -> P>(self, other: PartialImage<P>, sum: F) -> (r: Result<
        PartialImage<P>,
        MergeError,
    >)
        requires
            !self.spec_is_empty() && self.same_size(&other) ==> forall|x: int, y: int|
                0 <= x < self.spec_width() && 0 <= y < self.spec_height() ==> call_requires(
                    sum,
                    (#[trigger] self.pixel(x, y), other.pixel(x, y)),
                ),
        ensures
            self.spec_is_empty() ==> r == Ok::<PartialImage<P>, MergeError>(other),
            !self.spec_is_empty() && !self.same_size(&other) ==> r == Err::<
                PartialImage<P>,
                MergeError,
            >(self.mismatch(&other)),
            !self.spec_is_empty() && self.same_size(&other) && self.spec_samples()
                + other.spec_samples() > usize::MAX ==> r == Err::<PartialImage<P>, MergeError>(
                MergeError::TooManySamples,
            ),
            !self.spec_is_empty() && self.same_size(&other) && self.spec_samples()
                + other.spec_samples() <= usize::MAX ==> r.is_ok() && r.unwrap().same_size(&self)
                && r.unwrap().spec_samples() == self.spec_samples() + other.spec_samples()
                && forall|x: int, y: int|
                0 <= x < self.spec_width() && 0 <= y < self.spec_height() ==> call_ensures(
                    sum,
                    (self.pixel(x, y), other.pixel(x, y)),
                    #[trigger] r.unwrap().pixel(x, y),
                ),
    {
        proof {
            use_type_invariant(&self);
            use_type_invariant(&other);
        }
        if self.is_empty() {
            return Ok(other);
        }
        if self.width != other.width || self.image.len() != other.image.len() {
            return Err(
                MergeError::DimensionMismatch {
                    width: self.width,
                    height: self.image.len(),
                    other_width: other.width,
                    other_height: other.image.len(),
                },
            );
        }
        let samples = match self.samples.checked_add(other.samples) {
            Some(n) => n,
            None => {
                return Err(MergeError::TooManySamples);
            },
        };
        let width = self.width;
        let height = self.image.len();
        let mut image: Vec<Vec<P>> = Vec::new();
        let mut y: usize = 0;
        while y < height
            invariant
                y <= height,
                height == self.image@.len(),
                height == other.image@.len(),
                width == self.width,
                rectangular(self.image@, width as nat),
                rectangular(other.image@, width as nat),
                image@.len() == y,
                rectangular(image@, width as nat),
                forall|x: int, k: int|
                    0 <= x < width && 0 <= k < height ==> call_requires(
                        sum,
                        (#[trigger] self.pixel(x, k), other.pixel(x, k)),
                    ),
                forall|x: int, k: int|
                    0 <= x < width && 0 <= k < y ==> call_ensures(
                        sum,
                        (self.pixel(x, k), other.pixel(x, k)),
                        #[trigger] image@[k]@[x],
                    ),
            decreases height - y,
        {
            let mut row: Vec<P> = Vec::new();
            let mut x: usize = 0;
            while x < width
                invariant
                    x <= width,
                    y < height,
                    height == self.image@.len(),
                    height == other.image@.len(),
                    rectangular(self.image@, width as nat),
                    rectangular(other.image@, width as nat),
                    row@.len() == x,
                    forall|j: int, k: int|
                        0 <= j < width && 0 <= k < height ==> call_requires(
                            sum,
                            (#[trigger] self.pixel(j, k), other.pixel(j, k)),
                        ),
                    forall|j: int|
                        0 <= j < x ==> call_ensures(
                            sum,
                            (self.pixel(j, y as int), other.pixel(j, y as int)),
                            #[trigger] row@[j],
                        ),
                decreases width - x,
            {
                assert(self.image@[y as int]@.len() == width);
                assert(other.image@[y as int]@.len() == width);
                let a = self.image[y][x];
                let b = other.image[y][x];
                assert(a == self.pixel(x as int, y as int));
                assert(b == other.pixel(x as int, y as int));
                let c = sum(a, b);
                row.push(c);
                x += 1;
            }
            image.push(row);
            y += 1;
        }
        let merged = PartialImage { width, image, samples };
        assert forall|x: int, k: int| 0 <= x < width && 0 <= k < height implies call_ensures(
            sum,
            (self.pixel(x, k), other.pixel(x, k)),
            #[trigger] merged.pixel(x, k),
        ) by {
            assert(merged.pixel(x, k) == image@[k]@[x]);
        }
        Ok(merged)
    }
}

/// Whether `running` holds the sums that `sum` gave as it added up the terms
/// from the first to the last: the first term, then each time what `sum`
/// made of the sum so far and the next term.
pub open spec fn adds_up<P, F: Fn(P, P) -> P>(sum: F, terms: Seq<P>, running: Seq<P>) -> bool {
    &&& running.len() == terms.len()
    &&& terms.len() > 0 ==> running[0] == terms[0]
    &&& forall|k: int|
        0 < k < terms.len() ==> call_ensures(sum, (running[k - 1], terms[k]), #[trigger] running[k])
}

/// Whether `total` is what `sum` may give for the terms when it adds them
/// up from the first to the last.
pub open spec fn sums_to<P, F: Fn(P, P) -> P>(sum: F, terms: Seq<P>, total: P) -> bool {
    exists|running: Seq<P>| #[trigger]
        adds_up(sum, terms, running) && terms.len() > 0 && running.last() == total
}

/// One term sums to itself, and two terms to what `sum` makes of them.
pub proof fn lemma_sums_to_few<P, F: Fn(P, P) -> P>(sum: F, a: P, b: P, total: P)
    ensures
        sums_to(sum, seq![a], total) <==> total == a,
        sums_to(sum, seq![a, b], total) <==> call_ensures(sum, (a, b), total),
{
    if total == a {
        assert(adds_up(sum, seq![a], seq![a]));
    }
    if call_ensures(sum, (a, b), total) {
        let running = seq![a, total];
        assert(adds_up(sum, seq![a, b], running));
        assert(running.last() == total);
    }
    let pair = seq![a, b];
    if sums_to(sum, pair, total) {
        let running = choose|running: Seq<P>| #[trigger]
            adds_up(sum, pair, running) && running.last() == total;
        assert(call_ensures(sum, (running[0], pair[1]), running[1]));
    }
}

/// What the images hold at one pixel, image after image.
pub open spec fn column<P>(parts: Seq<PartialImage<P>>, x: int, y: int) -> Seq<P> {
    Seq::new(parts.len(), |k: int| parts[k].pixel(x, y))
}

/// The samples of all the images together.
pub open spec fn total_samples<P>(parts: Seq<PartialImage<P>>) -> nat
    decreases parts.len(),
{
    if parts.len() == 0 {
        0
    } else {
        total_samples(parts.drop_last()) + parts.last().spec_samples() as nat
    }
}

/// Whether each of the first `n` images has the size of the first of all.
pub open spec fn sizes_agree<P>(parts: Seq<PartialImage<P>>, n: int) -> bool {
    forall|k: int| 0 <= k < n ==> (#[trigger] parts[k]).same_size(&parts[0])
}

/// The samples of some of the images are no more than those of all.
pub proof fn lemma_total_samples_grows<P>(parts: Seq<PartialImage<P>>, n: int)
    requires
        0 <= n <= parts.len(),
    ensures
        total_samples(parts.take(n)) <= total_samples(parts),
    decreases parts.len(),
{
    if n == parts.len() {
        assert(parts.take(n) =~= parts);
    } else {
        lemma_total_samples_grows(parts.drop_last(), n);
        assert(parts.drop_last().take(n) =~= parts.take(n));
    }
}

/// Whether render `k` is the first that has not the size of the first of all.
pub open spec fn first_mismatch<P>(parts: Seq<PartialImage<P>>, k: int) -> bool {
    &&& 0 < k < parts.len()
    &&& sizes_agree(parts, k)
    &&& !parts[k].same_size(&parts[0])
}

/// Whether `merged` is the renders merged: of their common size, with their
/// samples together, and with each pixel summed up over the renders.
pub open spec fn is_merged<P, F: Fn(P, P) -> P>(
    sum: F,
    parts: Seq<PartialImage<P>>,
    merged: PartialImage<P>,
) -> bool {
    &&& merged.spec_samples() == total_samples(parts)
    &&& parts.len() == 0 ==> merged.spec_is_empty()
    &&& parts.len() > 0 ==> merged.same_size(&parts[0])
    &&& parts.len() > 0 ==> forall|x: int, y: int|
        0 <= x < merged.spec_width() && 0 <= y < merged.spec_height() ==> sums_to(
            sum,
            column(parts, x, y),
            #[trigger] merged.pixel(x, y),
        )
}

/// Whether `r` is what merging the renders gives: the first render of another
/// size than the first is reported; then samples that cannot be counted;
/// otherwise there is the merged image.
pub open spec fn merges<P, F: Fn(P, P) -> P>(
    sum: F,
    parts: Seq<PartialImage<P>>,
    r: Result<PartialImage<P>, MergeError>,
) -> bool {
    if exists|k: int| first_mismatch(parts, k) {
        exists|k: int| first_mismatch(parts, k) && r == Err::<PartialImage<P>, MergeError>(
            parts[0].mismatch(&parts[k]),
        )
    } else if total_samples(parts) > usize::MAX {
        r == Err::<PartialImage<P>, MergeError>(MergeError::TooManySamples)
    } else {
        r.is_ok() && is_merged(sum, parts, r.unwrap())
    }
}

/// Merging two renders is adding the second to the first: the samples add
/// up, and each pixel is what `sum` makes of the two.
pub proof fn lemma_merge_of_two<P, F: Fn(P, P) -> P>(
    sum: F,
    first: PartialImage<P>,
    second: PartialImage<P>,
    merged: PartialImage<P>,
)
    requires
        is_merged(sum, seq![first, second], merged),
    ensures
        merged.same_size(&first),
        merged.spec_samples() == first.spec_samples() + second.spec_samples(),
        forall|x: int, y: int|
            0 <= x < merged.spec_width() && 0 <= y < merged.spec_height() ==> call_ensures(
                sum,
                (first.pixel(x, y), second.pixel(x, y)),
                #[trigger] merged.pixel(x, y),
            ),
{
    let parts = seq![first, second];
    assert(parts.drop_last() =~= seq![first]);
    assert(parts.drop_last().drop_last() =~= Seq::<PartialImage<P>>::empty());
    assert(total_samples(parts.drop_last().drop_last()) == 0);
    assert(total_samples(parts.drop_last()) == first.spec_samples());
    assert(total_samples(parts) == first.spec_samples() + second.spec_samples());
    assert forall|x: int, y: int|
        0 <= x < merged.spec_width() && 0 <= y < merged.spec_height() implies call_ensures(
        sum,
        (first.pixel(x, y), second.pixel(x, y)),
        #[trigger] merged.pixel(x, y),
    ) by {
        assert(column(parts, x, y) =~= seq![first.pixel(x, y), second.pixel(x, y)]);
        lemma_sums_to_few(sum, first.pixel(x, y), second.pixel(x, y), merged.pixel(x, y));
    }
}

/// Merges partial renders of one size into one, pixel by pixel.
///
/// No render at all gives the empty image.  Otherwise every render must have
/// the width and the height of the first: the first that has not is reported,
/// before a single pixel is summed.  The sample counts add up, and each pixel
/// is the sum of the renders' pixels, added up from the first to the last.
pub fn merge<P: Copy, F: Fn(P, P) -> P>(parts: &Vec<PartialImage<P>>, sum: F) -> (r: Result<
    PartialImage<P>,
    MergeError,
>)
    requires
        forall|a: P, b: P| call_requires(sum, (a, b)),
    ensures
        merges(sum, parts@, r),
{
    let n = parts.len();
    if n == 0 {
        return Ok(PartialImage::empty());
    }
    let width = parts[0].width;
    let height = parts[0].image.len();
    let mut k: usize = 1;
    while k < n
        invariant
            1 <= k <= n,
            n == parts@.len(),
            width == parts@[0].spec_width(),
            height == parts@[0].spec_height(),
            sizes_agree(parts@, k as int),
        decreases n - k,
    {
        if parts[k].width != width || parts[k].image.len() != height {
            assert(first_mismatch(parts@, k as int));
            return Err(
                MergeError::DimensionMismatch {
                    width,
                    height,
                    other_width: parts[k].width,
                    other_height: parts[k].image.len(),
                },
            );
        }
        k += 1;
    }
    let mut samples: usize = 0;
    let mut k: usize = 0;
    assert(parts@.take(0) =~= Seq::<PartialImage<P>>::empty());
    while k < n
        invariant
            k <= n,
            n == parts@.len(),
            sizes_agree(parts@, n as int),
            samples == total_samples(parts@.take(k as int)),
        decreases n - k,
    {
        proof {
            assert(parts@.take(k + 1).drop_last() =~= parts@.take(k as int));
            assert(parts@.take(k + 1).last() == parts@[k as int]);
            lemma_total_samples_grows(parts@, k + 1);
        }
        samples = match samples.checked_add(parts[k].samples) {
            Some(s) => s,
            None => {
                return Err(MergeError::TooManySamples);
            },
        };
        k += 1;
    }
    assert(parts@.take(k as int) =~= parts@);
    let mut image: Vec<Vec<P>> = Vec::new();
    let mut y: usize = 0;
    while y < height
        invariant
            y <= height,
            0 < n == parts@.len(),
            width == parts@[0].spec_width(),
            height == parts@[0].spec_height(),
            sizes_agree(parts@, n as int),
            image@.len() == y,
            rectangular(image@, width as nat),
            forall|a: P, b: P| call_requires(sum, (a, b)),
            forall|x: int, v: int|
                0 <= x < width && 0 <= v < y ==> sums_to(
                    sum,
                    column(parts@, x, v),
                    #[trigger] image@[v]@[x],
                ),
        decreases height - y,
    {
        let mut row: Vec<P> = Vec::new();
        let mut x: usize = 0;
        while x < width
            invariant
                x <= width,
                y < height,
                0 < n == parts@.len(),
                width == parts@[0].spec_width(),
                height == parts@[0].spec_height(),
                sizes_agree(parts@, n as int),
                row@.len() == x,
                forall|a: P, b: P| call_requires(sum, (a, b)),
                forall|u: int|
                    0 <= u < x ==> sums_to(sum, column(parts@, u, y as int), #[trigger] row@[u]),
            decreases width - x,
        {
            let first = &parts[0];
            proof {
                use_type_invariant(first);
            }
            let mut total = first.image[y][x];
            let ghost terms = column(parts@, x as int, y as int);
            let ghost mut running = seq![total];
            let mut k: usize = 1;
            while k < n
                invariant
                    1 <= k <= n,
                    x < width,
                    y < height,
                    n == parts@.len(),
                    width == parts@[0].spec_width(),
                    height == parts@[0].spec_height(),
                    sizes_agree(parts@, n as int),
                    forall|a: P, b: P| call_requires(sum, (a, b)),
                    terms == column(parts@, x as int, y as int),
                    adds_up(sum, terms.take(k as int), running),
                    running.last() == total,
                decreases n - k,
            {
                let part = &parts[k];
                proof {
                    use_type_invariant(part);
                    assert(parts@[k as int].same_size(&parts@[0]));
                }
                let term = part.image[y][x];
                let next = sum(total, term);
                proof {
                    assert(term == terms[k as int]);
                    let longer = running.push(next);
                    assert forall|j: int| 0 < j < k + 1 implies call_ensures(
                        sum,
                        (longer[j - 1], terms.take(k + 1)[j]),
                        #[trigger] longer[j],
                    ) by {
                        if j < k {
                            assert(longer[j] == running[j]);
                            assert(terms.take(k as int)[j] == terms.take(k + 1)[j]);
                        }
                    }
                    running = longer;
                }
                total = next;
                k += 1;
            }
            proof {
                assert(terms.take(k as int) =~= terms);
                assert(adds_up(sum, terms, running));
            }
            row.push(total);
            x += 1;
        }
        image.push(row);
        y += 1;
    }
    let merged = PartialImage { width, image, samples };
    assert forall|x: int, v: int|
        0 <= x < merged.spec_width() && 0 <= v < merged.spec_height() implies sums_to(
        sum,
        column(parts@, x, v),
        #[trigger] merged.pixel(x, v),
    ) by {
        assert(merged.pixel(x, v) == image@[v]@[x]);
    }
    Ok(merged)
}

} // verus!
