use vstd::prelude::*;
use crate::film::PartialImage;

verus! {

/// Why a row was not taken, or why there is no image yet.
#[derive(Clone, Copy, Debug, PartialEq, Eq, Structural)]
pub enum CollectError {
    /// The image has no row of that number.
    NoSuchRow,
    /// The row does not have the width of the image.
    BadWidth,
    /// The row was handed in before.
    RowTaken,
    /// Rows are still missing.
    Incomplete,
}

/// The number of rows that have not come in.
pub open spec fn missing(placed: Seq<bool>) -> nat
    decreases placed.len(),
{
    if placed.len() == 0 {
        0
    } else {
        missing(placed.drop_last()) + if placed.last() {
            0nat
        } else {
            1nat
        }
    }
}

/// A row that comes in makes one row less that is missing.
pub proof fn lemma_missing_update(placed: Seq<bool>, y: int)
    requires
        0 <= y < placed.len(),
        !placed[y],
    ensures
        missing(placed) == missing(placed.update(y, true)) + 1,
    decreases placed.len(),
{
    let after = placed.update(y, true);
    if y == placed.len() - 1 {
        assert(after.drop_last() =~= placed.drop_last());
    } else {
        lemma_missing_update(placed.drop_last(), y);
        assert(after.drop_last() =~= placed.drop_last().update(y, true));
    }
}

/// Nothing is missing exactly if every row has come in.
pub proof fn lemma_missing_none(placed: Seq<bool>)
    ensures
        missing(placed) == 0 <==> forall|y: int| 0 <= y < placed.len() ==> placed[y],
    decreases placed.len(),
{
    if placed.len() > 0 {
        lemma_missing_none(placed.drop_last());
        if missing(placed) == 0 {
            assert forall|y: int| 0 <= y < placed.len() implies placed[y] by {
                if y < placed.len() - 1 {
                    assert(placed.drop_last()[y] == placed[y]);
                }
            }
        } else {
            if forall|y: int| 0 <= y < placed.len() ==> placed[y] {
                assert forall|y: int| 0 <= y < placed.drop_last().len() implies placed.drop_last()[y] by {
                    assert(placed.drop_last()[y] == placed[y]);
                }
            }
        }
    }
}

/// What a collector holds after row `y` came in as `line`.
pub open spec fn delivered<P>(rows: Seq<Option<Seq<P>>>, y: int, line: Seq<P>) -> Seq<
    Option<Seq<P>>,
> {
    rows.update(y, Some(line))
}

/// What a collector holds after the rows of `arrivals` came in, one after the
/// other.
pub open spec fn delivered_all<P>(rows: Seq<Option<Seq<P>>>, arrivals: Seq<(int, Seq<P>)>) -> Seq<
    Option<Seq<P>>,
>
    decreases arrivals.len(),
{
    if arrivals.len() == 0 {
        rows
    } else {
        delivered(delivered_all(rows, arrivals.drop_last()), arrivals.last().0, arrivals.last().1)
    }
}

/// Whether each arrival is for a row of the image, and no two are for the
/// same row.
pub open spec fn each_row_once<P>(arrivals: Seq<(int, Seq<P>)>, height: nat) -> bool {
    &&& forall|k: int| 0 <= k < arrivals.len() ==> 0 <= (#[trigger] arrivals[k]).0 < height
    &&& forall|k: int, l: int|
        0 <= k < l < arrivals.len() ==> (#[trigger] arrivals[k]).0 != (#[trigger] arrivals[l]).0
}

/// After rows came in, each of them once, the collector holds each where it
/// belongs, and the other rows are as they were.
pub proof fn lemma_delivered_all<P>(rows: Seq<Option<Seq<P>>>, arrivals: Seq<(int, Seq<P>)>)
    requires
        each_row_once(arrivals, rows.len()),
    ensures
        delivered_all(rows, arrivals).len() == rows.len(),
        forall|k: int|
            0 <= k < arrivals.len() ==> delivered_all(rows, arrivals)[(#[trigger] arrivals[k]).0]
                == Some(arrivals[k].1),
        forall|y: int|
            0 <= y < rows.len() && (forall|k: int|
                0 <= k < arrivals.len() ==> (#[trigger] arrivals[k]).0 != y) ==> delivered_all(
                rows,
                arrivals,
            )[y] == rows[y],
    decreases arrivals.len(),
{
    if arrivals.len() > 0 {
        let init = arrivals.drop_last();
        assert forall|k: int| 0 <= k < init.len() implies 0 <= (#[trigger] init[k]).0 < rows.len() by {
            assert(init[k] == arrivals[k]);
        }
        assert forall|k: int, l: int| 0 <= k < l < init.len() implies (#[trigger] init[k]).0 != (
        #[trigger] init[l]).0 by {
            assert(init[k] == arrivals[k]);
            assert(init[l] == arrivals[l]);
        }
        lemma_delivered_all(rows, init);
        let before = delivered_all(rows, init);
        let after = delivered_all(rows, arrivals);
        assert forall|k: int| 0 <= k < arrivals.len() implies after[(#[trigger] arrivals[k]).0]
            == Some(arrivals[k].1) by {
            if k < init.len() {
                assert(init[k] == arrivals[k]);
                assert(arrivals[k].0 != arrivals[arrivals.len() - 1].0);
            }
        }
        assert forall|y: int|
            0 <= y < rows.len() && (forall|k: int|
                0 <= k < arrivals.len() ==> (#[trigger] arrivals[k]).0 != y) implies after[y]
            == rows[y] by {
            assert(arrivals[arrivals.len() - 1].0 != y);
            assert forall|k: int| 0 <= k < init.len() implies (#[trigger] init[k]).0 != y by {
                assert(init[k] == arrivals[k]);
            }
        }
    }
}

/// The order in which rows come in does not matter.
///
/// If two runs hand in the same rows, each row once, in whatever order, the
/// collector holds the same after both.
pub proof fn lemma_arrival_order<P>(
    rows: Seq<Option<Seq<P>>>,
    first: Seq<(int, Seq<P>)>,
    second: Seq<(int, Seq<P>)>,
)
    requires
        each_row_once(first, rows.len()),
        each_row_once(second, rows.len()),
        forall|k: int| 0 <= k < first.len() ==> second.contains(#[trigger] first[k]),
        forall|k: int| 0 <= k < second.len() ==> first.contains(#[trigger] second[k]),
    ensures
        delivered_all(rows, first) == delivered_all(rows, second),
{
    lemma_delivered_all(rows, first);
    lemma_delivered_all(rows, second);
    let a = delivered_all(rows, first);
    let b = delivered_all(rows, second);
    assert forall|y: int| 0 <= y < rows.len() implies a[y] == b[y] by {
        if exists|k: int| 0 <= k < first.len() && (#[trigger] first[k]).0 == y {
            let k = choose|k: int| 0 <= k < first.len() && (#[trigger] first[k]).0 == y;
            assert(second.contains(first[k]));
            let l = choose|l: int| 0 <= l < second.len() && second[l] == first[k];
            assert(a[first[k].0] == Some(first[k].1));
            assert(b[second[l].0] == Some(second[l].1));
        } else {
            assert(forall|k: int| 0 <= k < first.len() ==> (#[trigger] first[k]).0 != y);
            assert(a[y] == rows[y]);
            if exists|l: int| 0 <= l < second.len() && (#[trigger] second[l]).0 == y {
                let l = choose|l: int| 0 <= l < second.len() && (#[trigger] second[l]).0 == y;
                assert(first.contains(second[l]));
                let k = choose|k: int| 0 <= k < first.len() && first[k] == second[l];
                assert(first[k].0 == y);
            }
            assert(forall|l: int| 0 <= l < second.len() ==> (#[trigger] second[l]).0 != y);
            assert(b[y] == rows[y]);
        }
    }
    assert(a =~= b);
}

/// Gathers the rows of an image as the workers hand them in, in whatever
/// order they come.
pub struct RowCollector<P> {
    width: usize,
    rows: Vec<Vec<P>>,
    placed: Vec<bool>,
    left: usize,
}

impl<P> RowCollector<P> {
    /// The invariant of the type: the collector knows of each row whether it
    /// has come in, the rows that have are as wide as the image, and it has
    /// counted those that have not.
    pub closed spec fn wf(&self) -> bool {
        &&& self.rows@.len() == self.placed@.len()
        &&& self.left == missing(self.placed@)
        &&& forall|y: int|
            0 <= y < self.rows@.len() && self.placed@[y] ==> (#[trigger] self.rows@[y])@.len()
                == self.width
    }

    /// The rows: what has come in for each, if anything.
    pub closed spec fn view(&self) -> Seq<Option<Seq<P>>> {
        Seq::new(
            self.rows@.len(),
            |y: int|
                if self.placed@[y] {
                    Some(self.rows@[y]@)
                } else {
                    None
                },
        )
    }

    /// The width of the image.
    pub closed spec fn spec_width(&self) -> usize {
        self.width
    }

    /// The number of rows that have not come in.
    pub closed spec fn spec_remaining(&self) -> usize {
        self.left
    }

    /// The count of the missing rows is right.
    pub proof fn lemma_remaining(&self)
        requires
            self.wf(),
        ensures
            self.spec_remaining() == 0 <==> forall|y: int|
                0 <= y < self@.len() ==> (#[trigger] self@[y]).is_some(),
            self.spec_remaining() <= self@.len(),
    {
        lemma_missing_none(self.placed@);
        lemma_missing_bound(self.placed@);
        if self.left == 0 {
            assert forall|y: int| 0 <= y < self@.len() implies (#[trigger] self@[y]).is_some() by {
                assert(self.placed@[y]);
            }
        } else {
            if forall|y: int| 0 <= y < self@.len() ==> (#[trigger] self@[y]).is_some() {
                assert forall|y: int| 0 <= y < self.placed@.len() implies self.placed@[y] by {
                    assert(self@[y].is_some());
                }
            }
        }
    }

    /// A collector for an image of `height` rows of `width` pixels, with every
    /// row missing.
    pub fn new(width: usize, height: usize) -> (c: Self)
        ensures
            c.wf(),
            c.spec_width() == width,
            c@.len() == height,
            c.spec_remaining() == height,
            forall|y: int| 0 <= y < height ==> (#[trigger] c@[y]).is_none(),
    {
        let mut rows: Vec<Vec<P>> = Vec::new();
        let mut placed: Vec<bool> = Vec::new();
        let mut y: usize = 0;
        while y < height
            invariant
                y <= height,
                rows@.len() == y,
                placed@.len() == y,
                missing(placed@) == y,
                forall|k: int| 0 <= k < y ==> !placed@[k],
            decreases height - y,
        {
            rows.push(Vec::new());
            let ghost before = placed@;
            placed.push(false);
            assert(placed@.drop_last() =~= before);
            y += 1;
        }
        RowCollector { width, rows, placed, left: height }
    }

    #[verifier::when_used_as_spec(spec_width)]
    pub fn width(&self) -> (w: usize)
        ensures
            w == self.spec_width(),
    {
        self.width
    }

    /// The number of rows of the image.
    pub fn height(&self) -> (h: usize)
        requires
            self.wf(),
        ensures
            h == self@.len(),
    {
        self.rows.len()
    }

    #[verifier::when_used_as_spec(spec_remaining)]
    pub fn remaining(&self) -> (n: usize)
        ensures
            n == self.spec_remaining(),
    {
        self.left
    }

    /// Whether every row has come in.
    pub fn is_complete(&self) -> (b: bool)
        requires
            self.wf(),
        ensures
            b == (self.spec_remaining() == 0),
            b <==> forall|y: int| 0 <= y < self@.len() ==> (#[trigger] self@[y]).is_some(),
    {
        proof {
            self.lemma_remaining();
        }
        self.left == 0
    }

    /// Takes row `y` as a worker hands it in.
    ///
    /// The row is refused, and nothing changes, if the image has no such row,
    /// if the row has not the width of the image, or if that row came in
    /// before.  Otherwise it takes its place, whatever came in before it.
    pub fn place(&mut self, y: usize, line: Vec<P>) -> (r: Result<(), CollectError>)
        requires
            old(self).wf(),
        ensures
            final(self).wf(),
            final(self).spec_width() == old(self).spec_width(),
            final(self)@.len() == old(self)@.len(),
            r == (if y >= old(self)@.len() {
                Err::<(), CollectError>(CollectError::NoSuchRow)
            } else if line@.len() != old(self).spec_width() {
                Err(CollectError::BadWidth)
            } else if old(self)@[y as int].is_some() {
                Err(CollectError::RowTaken)
            } else {
                Ok(())
            }),
            r.is_ok() ==> final(self)@ == delivered(old(self)@, y as int, line@),
            r.is_ok() ==> final(self).spec_remaining() == old(self).spec_remaining() - 1,
            r.is_err() ==> *final(self) == *old(self),
    {
        if y >= self.rows.len() {
            return Err(CollectError::NoSuchRow);
        }
        if line.len() != self.width {
            return Err(CollectError::BadWidth);
        }
        if self.placed[y] {
            return Err(CollectError::RowTaken);
        }
        proof {
            lemma_missing_update(self.placed@, y as int);
        }
        let ghost line_view = line@;
        self.rows.set(y, line);
        self.placed.set(y, true);
        self.left = self.left - 1;
        assert(self@ =~= delivered(old(self)@, y as int, line_view));
        Ok(())
    }

    /// Hands out the image once every row has come in.
    pub fn finish(self, samples: usize) -> (r: Result<PartialImage<P>, CollectError>)
        requires
            self.wf(),
        ensures
            self.spec_remaining() != 0 ==> r == Err::<PartialImage<P>, CollectError>(
                CollectError::Incomplete,
            ),
            self.spec_remaining() == 0 ==> r.is_ok(),
            r.is_ok() ==> r.unwrap().spec_width() == self.spec_width(),
            r.is_ok() ==> r.unwrap().spec_height() == self@.len(),
            r.is_ok() ==> r.unwrap().spec_samples() == samples,
            r.is_ok() ==> forall|x: int, y: int|
                0 <= x < self.spec_width() && 0 <= y < self@.len() ==> #[trigger] r.unwrap().pixel(
                    x,
                    y,
                ) == self@[y].unwrap()[x],
    {
        if self.left != 0 {
            return Err(CollectError::Incomplete);
        }
        proof {
            lemma_missing_none(self.placed@);
        }
        let ghost view = self@;
        let width = self.width;
        assert(crate::film::rectangular(self.rows@, width as nat)) by {
            assert forall|y: int| 0 <= y < self.rows@.len() implies (#[trigger] self.rows@[y])@.len()
                == width by {
                assert(self.placed@[y]);
            }
        }
        let ghost rows = self.rows@;
        match PartialImage::from_rows(width, self.rows, samples) {
            Some(image) => {
                assert forall|x: int, y: int|
                    0 <= x < width && 0 <= y < view.len() implies #[trigger] image.pixel(x, y)
                    == view[y].unwrap()[x] by {
                    assert(image.pixel(x, y) == rows[y]@[x]);
                }
                Ok(image)
            },
            None => Err(CollectError::Incomplete),
        }
    }
}

/// No more rows are missing than there are.
pub proof fn lemma_missing_bound(placed: Seq<bool>)
    ensures
        missing(placed) <= placed.len(),
    decreases placed.len(),
{
    if placed.len() > 0 {
        lemma_missing_bound(placed.drop_last());
    }
}

} // verus!
