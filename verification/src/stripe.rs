//! Stripes of the image and the worker that streams one of them.
//!
//! The image is cut into vertical stripes of equal width, one per worker.
//! A worker walks its stripe row by row, from the top left corner, hands out
//! one pixel after the other with its coordinates inside the stripe, and
//! begins again at the top when it has reached the end: it never stops. A
//! pixel whose send failed is not handed out again in the same pass; the
//! connection is re-established and the walk goes on with the next pixel.

use vstd::prelude::*;
use vstd::arithmetic::div_mod::{
    lemma_fundamental_div_mod,
    lemma_fundamental_div_mod_converse_div,
    lemma_fundamental_div_mod_converse_mod,
    lemma_mod_add_multiples_vanish,
    lemma_small_mod,
};
use crate::pixel::Pixel;
use crate::raster::{raster_height, raster_pixel, raster_pixels, raster_width};

verus! {

/// A vertical stripe of an image: the columns from `x_offset` on, `width` of
/// them, over `height` rows from the top.
#[derive(Clone, Copy, Debug, PartialEq, Eq, Structural)]
pub struct Stripe {
    pub x_offset: u32,
    pub width: u32,
    pub height: u32,
}

impl Stripe {
    /// Stripe number `index` of `count` stripes of equal width. The width
    /// is the image's width divided by `count`, rounded down: columns that
    /// are left over on the right belong to no stripe.
    pub open spec fn of(image_width: u32, image_height: u32, count: u32, index: u32) -> Stripe
        recommends
            count > 0,
            index < count,
    {
        Stripe {
            x_offset: (index * (image_width / count)) as u32,
            width: image_width / count,
            height: image_height,
        }
    }

    /// Whether the stripe lies inside an image of the given size.
    pub open spec fn fits(self, image_width: u32, image_height: u32) -> bool {
        self.x_offset + self.width <= image_width && self.height <= image_height
    }

    /// The number of pixels of the stripe.
    pub open spec fn pixel_count(self) -> nat {
        (self.width * self.height) as nat
    }

    /// The coordinates, inside the stripe, of the pixel that is handed out
    /// as number `i` of a pass: rows from top to bottom, each from left to
    /// right.
    pub open spec fn position(self, i: nat) -> (u32, u32)
        recommends
            i < self.pixel_count(),
    {
        ((i % self.width as nat) as u32, (i / self.width as nat) as u32)
    }

    /// The number, within a pass, of the pixel that follows number `i`:
    /// after the last pixel the first one follows.
    pub open spec fn successor(self, i: nat) -> nat {
        if i + 1 < self.pixel_count() {
            i + 1
        } else {
            0
        }
    }

    /// The number, within a pass, of the pixel that is handed out `steps`
    /// pixels after number `i`, passes that begin in between included.
    pub open spec fn ahead(self, i: nat, steps: nat) -> nat
        recommends
            self.pixel_count() > 0,
    {
        (i + steps) % self.pixel_count()
    }

    /// Cuts stripe number `index` of `count` out of an image of the given
    /// size.
    pub fn partition(image_width: u32, image_height: u32, count: u32, index: u32) -> (stripe:
        Stripe)
        requires
            count > 0,
            index < count,
        ensures
            stripe == Stripe::of(image_width, image_height, count, index),
            stripe.fits(image_width, image_height),
    {
        let width: u32 = image_width / count;
        proof {
            lemma_stripe_inside(image_width, count, index);
        }
        Stripe { x_offset: index * width, width, height: image_height }
    }
}

/// Every stripe lies inside the image.
proof fn lemma_stripe_inside(image_width: u32, count: u32, index: u32)
    requires
        count > 0,
        index < count,
    ensures
        index * (image_width / count) + image_width / count <= image_width,
        0 <= index * (image_width / count) <= u32::MAX,
{
    let width = image_width as int / count as int;
    lemma_fundamental_div_mod(image_width as int, count as int);
    assert(0 <= width);
    assert(count * width <= image_width);
    assert(index * width + width <= count * width) by (nonlinear_arith)
        requires
            0 <= index < count,
            0 <= width,
    ;
    assert(0 <= index * width) by (nonlinear_arith)
        requires
            0 <= index,
            0 <= width,
    ;
}

/// The stripes of one partition lie inside the image and do not overlap:
/// of two stripes the one with the lower number ends where the other begins
/// or before.
pub proof fn lemma_stripes_are_disjoint(
    image_width: u32,
    image_height: u32,
    count: u32,
    left: u32,
    right: u32,
)
    requires
        left < right < count,
    ensures
        Stripe::of(image_width, image_height, count, left).fits(image_width, image_height),
        Stripe::of(image_width, image_height, count, right).fits(image_width, image_height),
        Stripe::of(image_width, image_height, count, left).x_offset + Stripe::of(
            image_width,
            image_height,
            count,
            left,
        ).width <= Stripe::of(image_width, image_height, count, right).x_offset,
{
    lemma_stripe_inside(image_width, count, left);
    lemma_stripe_inside(image_width, count, right);
    let width = image_width as int / count as int;
    assert(left * width + width <= right * width) by (nonlinear_arith)
        requires
            0 <= left < right,
            0 <= width,
    ;
}

/// Position `y * width + x` of a pass is the pixel in column `x` of row `y`.
proof fn lemma_position_of_index(stripe: Stripe, x: u32, y: u32)
    requires
        x < stripe.width,
        y < stripe.height,
    ensures
        y * stripe.width + x < stripe.pixel_count(),
        stripe.position((y * stripe.width + x) as nat) == (x, y),
{
    let w = stripe.width as int;
    let h = stripe.height as int;
    let i = y * w + x;
    assert(y * w + w <= h * w) by (nonlinear_arith)
        requires
            0 <= y < h,
            0 <= w,
    ;
    assert(0 <= y * w) by (nonlinear_arith)
        requires
            0 <= y,
            0 <= w,
    ;
    assert(h * w == w * h) by (nonlinear_arith);
    lemma_fundamental_div_mod_converse_div(i, w, y as int, x as int);
    lemma_fundamental_div_mod_converse_mod(i, w, y as int, x as int);
}

/// Every position of a pass lies inside the stripe.
pub proof fn lemma_position_in_stripe(stripe: Stripe, i: nat)
    requires
        i < stripe.pixel_count(),
    ensures
        stripe.position(i).0 < stripe.width,
        stripe.position(i).1 < stripe.height,
        stripe.position(i).1 * stripe.width + stripe.position(i).0 == i,
{
    let w = stripe.width as int;
    let h = stripe.height as int;
    assert(w > 0) by (nonlinear_arith)
        requires
            0 <= i < w * h,
            0 <= w,
    ;
    lemma_fundamental_div_mod(i as int, w);
    let q = i as int / w;
    assert(0 <= q);
    assert(q < h) by (nonlinear_arith)
        requires
            w * q <= i,
            i < w * h,
            0 < w,
    ;
    assert(w * q == q * w) by (nonlinear_arith);
}

/// What happened to the last action of a worker.
#[derive(Clone, Copy, Debug, PartialEq, Eq, Structural)]
pub enum WorkerEvent {
    /// Nothing yet: the worker has just been started.
    Started,
    /// The pixel was sent, or needed no sending.
    Sent,
    /// The send of the pixel failed.
    SendFailed,
    /// The connection has been re-established.
    Reconnected,
}

/// What a worker does next.
#[derive(Clone, Copy, Debug, PartialEq, Eq)]
pub enum WorkerAction {
    /// Send this pixel; `x` and `y` are its coordinates inside the stripe.
    Send { x: u32, y: u32, pixel: Pixel },
    /// Re-establish the connection.
    Reconnect,
    /// The stripe has no pixels: there is nothing to send, now or later.
    Idle,
}

/// The mathematical state of a worker.
pub struct WorkerView {
    /// The image that the worker reads.
    pub image: image::DynamicImage,
    /// The stripe that the worker streams.
    pub stripe: Stripe,
    /// The number, within the pass, of the pixel that is handed out next.
    pub next: nat,
}

impl WorkerView {
    /// The stripe lies inside the image and the walk inside the stripe.
    pub open spec fn wf(self) -> bool {
        &&& self.stripe.fits(raster_width(self.image), raster_height(self.image))
        &&& (self.next < self.stripe.pixel_count() || self.next == 0)
    }

    /// Pixel number `i` of a pass: its coordinates inside the stripe and
    /// what the image holds there.
    pub open spec fn triple(self, i: nat) -> (u32, u32, Pixel) {
        let (x, y) = self.stripe.position(i);
        (x, y, raster_pixels(self.image)[(self.stripe.x_offset + x, y as int)])
    }

    /// The action that answers an event. A failed send is answered by a
    /// reconnect; everything else by the next pixel of the walk.
    pub open spec fn action(self, event: WorkerEvent) -> WorkerAction {
        if event == WorkerEvent::SendFailed {
            WorkerAction::Reconnect
        } else if self.stripe.pixel_count() == 0 {
            WorkerAction::Idle
        } else {
            let (x, y, pixel) = self.triple(self.next);
            WorkerAction::Send { x, y, pixel }
        }
    }

    /// The state after an event: the walk has moved on by one pixel if a
    /// pixel was handed out, and nothing has changed otherwise.
    pub open spec fn after(self, event: WorkerEvent) -> WorkerView {
        if event == WorkerEvent::SendFailed {
            self
        } else {
            WorkerView { next: self.stripe.successor(self.next), ..self }
        }
    }

    /// The state after a series of events.
    pub open spec fn after_all(self, events: Seq<WorkerEvent>) -> WorkerView
        decreases events.len(),
    {
        if events.len() == 0 {
            self
        } else {
            self.after(events[0]).after_all(events.skip(1))
        }
    }

    /// The pixels that the worker hands out over a series of events, in the
    /// order in which it hands them out.
    pub open spec fn handed_out(self, events: Seq<WorkerEvent>) -> Seq<(u32, u32, Pixel)>
        decreases events.len(),
    {
        if events.len() == 0 {
            Seq::empty()
        } else {
            let rest = self.after(events[0]).handed_out(events.skip(1));
            match self.action(events[0]) {
                WorkerAction::Send { x, y, pixel } => seq![(x, y, pixel)] + rest,
                _ => rest,
            }
        }
    }
}

/// How many of the events are answered by a pixel: all but the failed sends.
pub open spec fn answered_by_pixel(events: Seq<WorkerEvent>) -> nat
    decreases events.len(),
{
    if events.len() == 0 {
        0
    } else {
        let rest = answered_by_pixel(events.skip(1));
        if events[0] == WorkerEvent::SendFailed {
            rest
        } else {
            rest + 1
        }
    }
}

/// The worker of one stripe: the image, the stripe and the place of the walk.
pub struct StripeWorker {
    image: image::DynamicImage,
    stripe: Stripe,
    x: u32,
    y: u32,
}

impl View for StripeWorker {
    type V = WorkerView;

    closed spec fn view(&self) -> WorkerView {
        WorkerView {
            image: self.image,
            stripe: self.stripe,
            next: (self.y * self.stripe.width + self.x) as nat,
        }
    }
}

impl StripeWorker {
    #[verifier::type_invariant]
    spec fn walk_in_stripe(&self) -> bool {
        &&& self.stripe.fits(raster_width(self.image), raster_height(self.image))
        &&& if self.stripe.width > 0 && self.stripe.height > 0 {
            self.x < self.stripe.width && self.y < self.stripe.height
        } else {
            self.x == 0 && self.y == 0
        }
    }

    /// The worker of stripe number `index` of `count` stripes of `image`,
    /// at the start of its first pass.
    pub fn new(image: image::DynamicImage, count: u32, index: u32) -> (worker: StripeWorker)
        requires
            count > 0,
            index < count,
        ensures
            worker@ == (WorkerView {
                image,
                stripe: Stripe::of(raster_width(image), raster_height(image), count, index),
                next: 0,
            }),
            worker@.wf(),
    {
        let width: u32 = image.width();
        let height: u32 = image.height();
        let stripe = Stripe::partition(width, height, count, index);
        assert(0 * stripe.width + 0 == 0) by (nonlinear_arith);
        StripeWorker { image, stripe, x: 0, y: 0 }
    }

    /// The stripe that the worker streams.
    pub fn stripe(&self) -> (stripe: Stripe)
        ensures
            stripe == self@.stripe,
            self@.wf(),
    {
        proof {
            use_type_invariant(self);
            self.lemma_view_wf();
        }
        self.stripe
    }

    /// The state of a worker is always well formed.
    proof fn lemma_view_wf(&self)
        requires
            self.walk_in_stripe(),
        ensures
            self@.wf(),
            self.stripe.pixel_count() > 0 ==> self.x < self.stripe.width && self.y
                < self.stripe.height && self@.stripe.position(self@.next) == (self.x, self.y),
            self.stripe.pixel_count() == 0 ==> self.x == 0 && self.y == 0,
    {
        let w = self.stripe.width as int;
        let h = self.stripe.height as int;
        if w > 0 && h > 0 {
            assert(w * h > 0) by (nonlinear_arith)
                requires
                    w > 0,
                    h > 0,
            ;
            lemma_position_of_index(self.stripe, self.x, self.y);
        } else {
            assert(w * h == 0) by (nonlinear_arith)
                requires
                    w == 0 || h == 0,
            ;
            assert(0 * w + 0 == 0) by (nonlinear_arith);
        }
    }

    /// Says what to do after `event`.
    ///
    /// After a failed send the connection is to be re-established; the walk
    /// stays where it is, behind the pixel that failed. After anything else
    /// the next pixel of the walk is to be sent, and the walk moves on by
    /// one, from the last pixel of the stripe back to the first. A worker
    /// of an empty stripe has nothing to send.
    pub fn step(&mut self, event: WorkerEvent) -> (action: WorkerAction)
        ensures
            old(self)@.wf(),
            action == old(self)@.action(event),
            final(self)@ == old(self)@.after(event),
            final(self)@.wf(),
    {
        proof {
            use_type_invariant(&*self);
            self.lemma_view_wf();
        }
        if let WorkerEvent::SendFailed = event {
            return WorkerAction::Reconnect;
        }
        let width: u32 = self.stripe.width;
        let height: u32 = self.stripe.height;
        if width == 0 || height == 0 {
            assert(self@.stripe.successor(self@.next) == 0);
            return WorkerAction::Idle;
        }
        let x: u32 = self.x;
        let y: u32 = self.y;
        let pixel = raster_pixel(&self.image, self.stripe.x_offset + x, y);
        proof {
            let w = width as int;
            let h = height as int;
            assert((y + 1) * w == y * w + w) by (nonlinear_arith);
            assert(y * w + w <= h * w) by (nonlinear_arith)
                requires
                    0 <= y < h,
                    0 <= w,
            ;
            assert(h * w == w * h) by (nonlinear_arith);
            assert(0 * w + 0 == 0) by (nonlinear_arith);
            if y + 1 < h {
                assert((y + 1) * w + w <= h * w) by (nonlinear_arith)
                    requires
                        0 <= y + 1 < h,
                        0 <= w,
                ;
            } else {
                assert(y * w + w == h * w);
            }
        }
        if x + 1 < width {
            self.x = x + 1;
        } else if y + 1 < height {
            self.x = 0;
            self.y = y + 1;
        } else {
            self.x = 0;
            self.y = 0;
        }
        proof {
            use_type_invariant(&*self);
            self.lemma_view_wf();
        }
        WorkerAction::Send { x, y, pixel }
    }
}

/// The walk is the same whatever becomes of the sends. Over any series of
/// events a worker hands out the pixels of its stripe in the order of the
/// pass, beginning with the one that was due and starting over after the
/// last: one pixel for each event that is not a failed send. A pixel whose
/// send failed is followed by the next one, and is not handed out again
/// before the walk comes round to it.
pub proof fn lemma_walk_order(worker: WorkerView, events: Seq<WorkerEvent>)
    requires
        worker.wf(),
        worker.stripe.pixel_count() > 0,
    ensures
        worker.handed_out(events) == Seq::new(
            answered_by_pixel(events),
            |j: int| worker.triple(worker.stripe.ahead(worker.next, j as nat)),
        ),
        worker.after_all(events) == (WorkerView {
            next: worker.stripe.ahead(worker.next, answered_by_pixel(events)),
            ..worker
        }),
    decreases events.len(),
{
    let count = worker.stripe.pixel_count() as int;
    let expected = Seq::new(
        answered_by_pixel(events),
        |j: int| worker.triple(worker.stripe.ahead(worker.next, j as nat)),
    );
    lemma_small_mod(worker.next, count as nat);
    if events.len() == 0 {
        assert(worker.handed_out(events) =~= expected);
    } else {
        let tail = events.skip(1);
        let then = worker.after(events[0]);
        lemma_walk_order(then, tail);
        if events[0] == WorkerEvent::SendFailed {
            assert(worker.handed_out(events) =~= expected);
        } else {
            let m = answered_by_pixel(tail);
            assert forall|j: nat| j <= m implies #[trigger] worker.stripe.ahead(then.next, j)
                == worker.stripe.ahead(worker.next, j + 1) by {
                if worker.next + 1 < count {
                } else {
                    lemma_mod_add_multiples_vanish(j as int, count);
                }
            }
            assert(worker.stripe.ahead(then.next, m) == worker.stripe.ahead(worker.next, m + 1));
            assert forall|j: int| 0 <= j < expected.len() implies worker.handed_out(events)[j]
                == #[trigger] expected[j] by {
                if j > 0 {
                    assert(worker.stripe.ahead(then.next, (j - 1) as nat)
                        == worker.stripe.ahead(worker.next, ((j - 1) as nat) + 1));
                }
            }
            assert(worker.handed_out(events) =~= expected);
        }
    }
}

/// One full pass: a worker at the start of a pass that is answered by as
/// many pixels as the stripe has hands out every pixel of the stripe exactly
/// once, row by row and from left to right in each row, and stands at the
/// start of the next pass afterwards.
pub proof fn lemma_full_pass(worker: WorkerView, events: Seq<WorkerEvent>)
    requires
        worker.wf(),
        worker.next == 0,
        worker.stripe.pixel_count() > 0,
        answered_by_pixel(events) == worker.stripe.pixel_count(),
    ensures
        worker.handed_out(events) == Seq::new(
            worker.stripe.pixel_count(),
            |i: int| worker.triple(i as nat),
        ),
        worker.after_all(events) == worker,
{
    let count = worker.stripe.pixel_count() as int;
    lemma_walk_order(worker, events);
    assert forall|j: nat| j < count implies #[trigger] worker.stripe.ahead(0, j) == j by {
        lemma_small_mod(j, count as nat);
    }
    assert(worker.stripe.ahead(0, count as nat) == 0) by {
        lemma_mod_add_multiples_vanish(0, count);
        lemma_small_mod(0, count as nat);
    }
    assert(worker.handed_out(events) =~= Seq::new(
        worker.stripe.pixel_count(),
        |i: int| worker.triple(i as nat),
    ));
}

} // verus!
