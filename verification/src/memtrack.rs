//! The books of an allocator that tracks memory: live bytes, their peak, and a
//! histogram of sizes. They move only while tracking is on.
use crate::layout;
use crate::layout::{push_left, push_right, status_field};
use crate::text;
use crate::text::dec_string;
use vstd::prelude::*;
use vstd::string::*;

verus! {

/// The number of size classes.
pub const NBUCKETS: usize = 8;

/// The size class of an allocation: up to 32 bytes, 256, 2K, 16K, 128K, 1M, 8M, more.
pub open spec fn size_class(size: usize) -> int {
    if size <= 32 {
        0
    } else if size <= 256 {
        1
    } else if size <= 2048 {
        2
    } else if size <= 16384 {
        3
    } else if size <= 131_072 {
        4
    } else if size <= 1_048_576 {
        5
    } else if size <= 8_388_608 {
        6
    } else {
        7
    }
}

/// The size class of an allocation.
pub fn bucket_of(size: usize) -> (r: usize)
    ensures
        r == size_class(size),
        r < NBUCKETS,
{
    if size <= 32 {
        0
    } else if size <= 256 {
        1
    } else if size <= 2048 {
        2
    } else if size <= 16384 {
        3
    } else if size <= 131_072 {
        4
    } else if size <= 1_048_576 {
        5
    } else if size <= 8_388_608 {
        6
    } else {
        7
    }
}

/// The books of the allocator.
pub struct TrackingAlloc {
    tracking: bool,
    live: usize,
    peak: usize,
    allocs: usize,
    live_objs: usize,
    buckets: [usize; 8],
}

/// A reading of the books.
#[derive(Clone, Copy, Debug)]
pub struct MemSnapshot {
    pub live_bytes: usize,
    pub peak_bytes: usize,
    pub live_objects: usize,
    pub total_allocs: usize,
    pub buckets: [usize; 8],
}

impl Default for MemSnapshot {
    fn default() -> (r: Self)
        ensures
            r.live_bytes == 0,
            r.peak_bytes == 0,
            r.live_objects == 0,
            r.total_allocs == 0,
            r.buckets@ == seq![0usize, 0, 0, 0, 0, 0, 0, 0],
    {
        let buckets: [usize; 8] = [0, 0, 0, 0, 0, 0, 0, 0];
        proof {
            assert(buckets@ =~= seq![0usize, 0, 0, 0, 0, 0, 0, 0]);
        }
        MemSnapshot {
            live_bytes: 0,
            peak_bytes: 0,
            live_objects: 0,
            total_allocs: 0,
            buckets,
        }
    }
}

/// What the books say.
pub struct BooksView {
    pub tracking: bool,
    pub live: usize,
    pub peak: usize,
    pub allocs: usize,
    pub live_objs: usize,
    pub buckets: Seq<usize>,
}

impl View for TrackingAlloc {
    type V = BooksView;

    closed spec fn view(&self) -> BooksView {
        BooksView {
            tracking: self.tracking,
            live: self.live,
            peak: self.peak,
            allocs: self.allocs,
            live_objs: self.live_objs,
            buckets: self.buckets@,
        }
    }
}

/// The books after an allocation. Counters wrap; the peak is compared with the
/// saturated sum.
pub open spec fn allocated(b: BooksView, size: usize) -> BooksView {
    if !b.tracking {
        b
    } else {
        let top = if b.live + size > usize::MAX { usize::MAX } else { (b.live + size) as usize };
        BooksView {
            tracking: true,
            live: b.live.wrapping_add(size),
            peak: if top > b.peak { top } else { b.peak },
            allocs: b.allocs.wrapping_add(1),
            live_objs: b.live_objs.wrapping_add(1),
            buckets: b.buckets.update(
                size_class(size),
                b.buckets[size_class(size)].wrapping_add(1),
            ),
        }
    }
}

/// The books after a free: never below zero, since what is freed may never have
/// been counted.
pub open spec fn freed(b: BooksView, size: usize) -> BooksView {
    if !b.tracking {
        b
    } else {
        BooksView {
            live: if b.live < size { 0 } else { (b.live - size) as usize },
            live_objs: if b.live_objs < 1 { 0 } else { (b.live_objs - 1) as usize },
            ..b
        }
    }
}

impl TrackingAlloc {
    /// Empty books; tracking is off.
    pub fn new() -> (r: Self)
        ensures
            r@ == (BooksView {
                tracking: false,
                live: 0,
                peak: 0,
                allocs: 0,
                live_objs: 0,
                buckets: seq![0, 0, 0, 0, 0, 0, 0, 0],
            }),
    {
        let r = TrackingAlloc {
            tracking: false,
            live: 0,
            peak: 0,
            allocs: 0,
            live_objs: 0,
            buckets: [0, 0, 0, 0, 0, 0, 0, 0],
        };
        proof {
            assert(r@.buckets =~= seq![0, 0, 0, 0, 0, 0, 0, 0]);
        }
        r
    }
}

/// Turns tracking on or off.
pub fn set_tracking(books: &mut TrackingAlloc, on: bool)
    ensures
        final(books)@ == (BooksView { tracking: on, ..old(books)@ }),
{
    books.tracking = on;
}

/// Whether tracking is on.
pub fn tracking_enabled(books: &TrackingAlloc) -> (r: bool)
    ensures
        r == books@.tracking,
{
    books.tracking
}

/// Enters an allocation into the books.
pub fn record_alloc(books: &mut TrackingAlloc, size: usize)
    ensures
        final(books)@ == allocated(old(books)@, size),
{
    if !books.tracking {
        return ;
    }
    let live: usize = books.live.saturating_add(size);
    books.live = books.live.wrapping_add(size);
    books.live_objs = books.live_objs.wrapping_add(1);
    books.allocs = books.allocs.wrapping_add(1);
    let b: usize = bucket_of(size);
    books.buckets[b] = books.buckets[b].wrapping_add(1);
    if live > books.peak {
        books.peak = live;
    }
    proof {
        assert(books@.buckets =~= allocated(old(books)@, size).buckets);
    }
}

/// Takes a free into the books.
pub fn record_free(books: &mut TrackingAlloc, size: usize)
    ensures
        final(books)@ == freed(old(books)@, size),
{
    if !books.tracking {
        return ;
    }
    saturating_sub(&mut books.live, size);
    saturating_sub(&mut books.live_objs, 1);
}

/// Lowers a counter, at most to zero.
pub fn saturating_sub(counter: &mut usize, amount: usize)
    ensures
        *final(counter) == (if *old(counter) < amount { 0 } else { *old(counter) - amount }),
{
    *counter = (*counter).saturating_sub(amount);
}

/// Reads the books.
pub fn snapshot(books: &TrackingAlloc) -> (r: MemSnapshot)
    ensures
        r.live_bytes == books@.live,
        r.peak_bytes == books@.peak,
        r.live_objects == books@.live_objs,
        r.total_allocs == books@.allocs,
        r.buckets@ == books@.buckets,
{
    MemSnapshot {
        live_bytes: books.live,
        peak_bytes: books.peak,
        live_objects: books.live_objs,
        total_allocs: books.allocs,
        buckets: books.buckets,
    }
}

/// The label of a size class.
pub open spec fn class_label(i: int) -> Seq<char> {
    if i == 0 {
        "<=32B"@
    } else if i == 1 {
        "<=256B"@
    } else if i == 2 {
        "<=2K"@
    } else if i == 3 {
        "<=16K"@
    } else if i == 4 {
        "<=128K"@
    } else if i == 5 {
        "<=1M"@
    } else if i == 6 {
        "<=8M"@
    } else {
        ">8M"@
    }
}

fn label_of(i: usize) -> (r: &'static str)
    ensures
        r@ == class_label(i as int),
{
    if i == 0 {
        "<=32B"
    } else if i == 1 {
        "<=256B"
    } else if i == 2 {
        "<=2K"
    } else if i == 3 {
        "<=16K"
    } else if i == 4 {
        "<=128K"
    } else if i == 5 {
        "<=1M"
    } else if i == 6 {
        "<=8M"
    } else {
        ">8M"
    }
}

/// The first `n` lines of the histogram.
pub open spec fn histogram_lines(buckets: Seq<usize>, n: nat) -> Seq<char>
    decreases n,
{
    if n == 0 {
        Seq::empty()
    } else {
        histogram_lines(buckets, (n - 1) as nat) + "        "@ + layout::at_right(
            class_label(n - 1),
            7,
        ) + "  "@ + layout::at_right(text::dec_text(buckets[n - 1] as nat), 14) + "\n"@
    }
}

/// The summary line, from numbers that were already written out.
pub open spec fn summary(
    tag: Seq<char>,
    live_mb: Seq<char>,
    peak_mb: Seq<char>,
    objects: usize,
    mean: Seq<char>,
) -> Seq<char> {
    "[MEM] "@ + layout::at_left(tag, 18) + " live="@ + layout::at_right(live_mb, 8)
        + " MB  peak="@ + layout::at_right(peak_mb, 8) + " MB  objs="@ + layout::at_right(
        text::dec_text(objects as nat),
        10,
    ) + "  mean="@ + layout::at_right(mean, 7) + " B"@
}

impl MemSnapshot {
    /// The summary line. The caller writes the megabytes out to one decimal and the
    /// mean object size to none.
    pub fn line(&self, tag: &str, live_mb: &str, peak_mb: &str, mean: &str) -> (r: String)
        ensures
            r@ == summary(tag@, live_mb@, peak_mb@, self.live_objects, mean@),
    {
        let mut s: String = "[MEM] ".to_owned();
        push_left(&mut s, tag, 18);
        s.append(" live=");
        push_right(&mut s, live_mb, 8);
        s.append(" MB  peak=");
        push_right(&mut s, peak_mb, 8);
        s.append(" MB  objs=");
        push_right(&mut s, dec_string(self.live_objects as u64).as_str(), 10);
        s.append("  mean=");
        push_right(&mut s, mean, 7);
        s.append(" B");
        s
    }

    /// How often each size class was allocated.
    pub fn histogram(&self) -> (r: String)
        ensures
            r@ == "[MEM] size histogram (cumulative allocs):\n"@ + histogram_lines(
                self.buckets@,
                8,
            ),
    {
        let mut s: String = "[MEM] size histogram (cumulative allocs):\n".to_owned();
        let ghost head = s@;
        let mut i: usize = 0;
        proof {
            assert(s@ =~= head + histogram_lines(self.buckets@, 0));
        }
        while i < 8
            invariant
                i <= 8,
                s@ == head + histogram_lines(self.buckets@, i as nat),
            decreases 8 - i,
        {
            s.append("        ");
            push_right(&mut s, label_of(i), 7);
            s.append("  ");
            push_right(&mut s, dec_string(self.buckets[i] as u64).as_str(), 14);
            s.append("\n");
            i = i + 1;
            proof {
                assert(s@ =~= head + histogram_lines(self.buckets@, i as nat));
            }
        }
        s
    }

    /// The growth of the live bytes since another reading, both cast to an `i64`.
    pub fn since(&self, base: &MemSnapshot) -> (r: i64)
        requires
            i64::MIN <= (self.live_bytes as i64) - (base.live_bytes as i64) <= i64::MAX,
        ensures
            r == (self.live_bytes as i64) - (base.live_bytes as i64),
            self.live_bytes <= i64::MAX && base.live_bytes <= i64::MAX ==> r == self.live_bytes
                - base.live_bytes,
    {
        let a: i64 = self.live_bytes as i64;
        let b: i64 = base.live_bytes as i64;
        a - b
    }
}

/// The resident memory that a process status file gives, in bytes; 0 where it gives
/// none, or none that fits.
pub fn rss_bytes(status: &str) -> (r: u64)
    ensures
        r == (match layout::status_number(status@, "VmRSS:"@) {
            Some(kb) => if kb * 1024 <= u64::MAX {
                kb * 1024
            } else {
                0
            },
            None => 0,
        }),
{
    match status_field(status, "VmRSS:") {
        Some(kb) => if kb <= u64::MAX / 1024 {
            kb * 1024
        } else {
            0
        },
        None => 0,
    }
}

/// The summary line of a reading with the resident memory and its ratio to the live bytes
/// behind it, both already written out.
pub fn report(
    snap: &MemSnapshot,
    tag: &str,
    live_mb: &str,
    peak_mb: &str,
    mean: &str,
    rss_mb: &str,
    overhead: &str,
) -> (r: String)
    ensures
        r@ == summary(tag@, live_mb@, peak_mb@, snap.live_objects, mean@) + "  rss="@
            + layout::at_right(rss_mb@, 8) + " MB  overhead="@ + layout::at_right(overhead@, 6)
            + "x"@,
{
    let mut s: String = snap.line(tag, live_mb, peak_mb, mean);
    s.append("  rss=");
    push_right(&mut s, rss_mb, 8);
    s.append(" MB  overhead=");
    push_right(&mut s, overhead, 6);
    s.append("x");
    s
}

/// Books whose peak is a high-water mark and that hold a count for each class.
pub open spec fn sound(b: BooksView) -> bool {
    b.live <= b.peak && b.buckets.len() == NBUCKETS
}

/// The peak stays a high-water mark over every allocation and free, and never falls.
pub proof fn law_peak_is_high_water(b: BooksView, size: usize)
    requires
        sound(b),
    ensures
        sound(allocated(b, size)),
        sound(freed(b, size)),
        allocated(b, size).peak >= b.peak,
        freed(b, size).peak == b.peak,
{
}

/// While tracking is off, nothing moves the books.
pub proof fn law_off_means_still(b: BooksView, size: usize)
    requires
        !b.tracking,
    ensures
        allocated(b, size) == b,
        freed(b, size) == b,
{
}

/// Freeing what was just allocated restores the live bytes and objects.
pub proof fn law_free_undoes_alloc(b: BooksView, size: usize)
    requires
        b.live + size <= usize::MAX,
        b.live_objs < usize::MAX,
    ensures
        freed(allocated(b, size), size).live == b.live,
        freed(allocated(b, size), size).live_objs == b.live_objs,
{
}

/// What moves the books.
pub enum BookEvent {
    Alloc(usize),
    Free(usize),
    Track(bool),
}

/// The books after a run of events.
pub open spec fn ran(b: BooksView, events: Seq<BookEvent>) -> BooksView
    decreases events.len(),
{
    if events.len() == 0 {
        b
    } else {
        let before = ran(b, events.drop_last());
        match events.last() {
            BookEvent::Alloc(size) => allocated(before, size),
            BookEvent::Free(size) => freed(before, size),
            BookEvent::Track(on) => BooksView { tracking: on, ..before },
        }
    }
}

/// The allocations in all classes together.
pub open spec fn in_buckets(b: Seq<usize>) -> int {
    b[0] + b[1] + b[2] + b[3] + b[4] + b[5] + b[6] + b[7]
}

/// Over any run the classes together hold every allocation that was counted, as long as their
/// number fits in a word.
pub proof fn law_classes_hold_every_allocation(b: BooksView, events: Seq<BookEvent>)
    requires
        b.buckets.len() == NBUCKETS,
        in_buckets(b.buckets) == b.allocs,
        b.allocs + events.len() <= usize::MAX,
    ensures
        ran(b, events).buckets.len() == NBUCKETS,
        in_buckets(ran(b, events).buckets) == ran(b, events).allocs,
        ran(b, events).allocs <= b.allocs + events.len(),
    decreases events.len(),
{
    if events.len() > 0 {
        law_classes_hold_every_allocation(b, events.drop_last());
    }
}

/// Of two readings of the books, however many events lie before and between them: in each the
/// live bytes are at most the peak and the classes hold every allocation, and neither the peak
/// nor the number of allocations falls from the first to the second. The number of allocations
/// has to fit in a word.
pub proof fn law_readings_only_grow(b: BooksView, events: Seq<BookEvent>, i: int)
    requires
        sound(b),
        in_buckets(b.buckets) == b.allocs,
        b.allocs + events.len() <= usize::MAX,
        0 <= i <= events.len(),
    ensures
        ({
            let one = ran(b, events.take(i));
            let two = ran(b, events);
            &&& sound(one)
            &&& sound(two)
            &&& in_buckets(one.buckets) == one.allocs
            &&& in_buckets(two.buckets) == two.allocs
            &&& one.peak <= two.peak
            &&& one.allocs <= two.allocs
        }),
    decreases events.len(),
{
    law_classes_hold_every_allocation(b, events.take(i));
    law_classes_hold_every_allocation(b, events);
    if i == events.len() {
        assert(events.take(i) =~= events);
        if i > 0 {
            law_readings_only_grow(b, events.drop_last(), i - 1);
            assert(events.drop_last().take(i - 1) =~= events.drop_last());
        }
    } else {
        law_readings_only_grow(b, events.drop_last(), i);
        assert(events.drop_last().take(i) =~= events.take(i));
        law_classes_hold_every_allocation(b, events.drop_last());
    }
}

/// Two readings are the same in every figure where tracking was off at the first and nothing
/// turned it on before the second.
pub proof fn law_readings_stand_still(b: BooksView, events: Seq<BookEvent>, i: int)
    requires
        0 <= i <= events.len(),
        !ran(b, events.take(i)).tracking,
        forall|j: int| i <= j < events.len() ==> #[trigger] events[j] != BookEvent::Track(true),
    ensures
        ran(b, events) == ran(b, events.take(i)),
    decreases events.len(),
{
    if i == events.len() {
        assert(events.take(i) =~= events);
    } else {
        let front = events.drop_last();
        assert(front.take(i) =~= events.take(i));
        assert forall|j: int| i <= j < front.len() implies #[trigger] front[j] != BookEvent::Track(
            true,
        ) by {
            assert(events[j] == front[j]);
        }
        law_readings_stand_still(b, front, i);
        assert(events[events.len() - 1] != BookEvent::Track(true));
    }
}

/// A larger allocation never falls into a smaller class.
pub proof fn law_classes_ordered(a: usize, b: usize)
    requires
        a <= b,
    ensures
        size_class(a) <= size_class(b),
{
}

/// Each class reaches eight times as far as the one below it, the first up to 32 bytes, and the
/// last takes all the rest.
pub proof fn law_classes_widen_eightfold(size: usize, c: nat)
    requires
        c < 7,
    ensures
        size_class(size) <= c <==> size <= 32 * vstd::arithmetic::power::pow(8, c),
        0 <= size_class(size) <= 7,
{
    assert(vstd::arithmetic::power::pow(8, c) == (if c == 0 {
        1
    } else if c == 1 {
        8
    } else if c == 2 {
        64
    } else if c == 3 {
        512
    } else if c == 4 {
        4096
    } else if c == 5 {
        32768
    } else {
        262144int
    })) by {
        reveal_with_fuel(vstd::arithmetic::power::pow, 8);
    }
}

/// An allocation adds its size to the live bytes and itself to the live objects, to the
/// allocations and to its own class, and moves the peak no further than it has to.
pub proof fn law_allocation_is_entered_once(b: BooksView, size: usize, c: int)
    requires
        b.tracking,
        sound(b),
        b.live + size <= usize::MAX,
        b.allocs < usize::MAX,
        b.live_objs < usize::MAX,
        0 <= c < NBUCKETS,
        b.buckets[c] < usize::MAX,
    ensures
        ({
            let a = allocated(b, size);
            &&& a.tracking
            &&& a.live == b.live + size
            &&& a.live_objs == b.live_objs + 1
            &&& a.allocs == b.allocs + 1
            &&& a.buckets[c] - b.buckets[c] == (if c == size_class(size) {
                1int
            } else {
                0
            })
            &&& a.peak == b.peak || a.peak == a.live
            &&& a.live <= a.peak
            &&& b.live + size <= b.peak ==> a.peak == b.peak
        }),
{
}

/// A free takes its size off the live bytes and one off the live objects, but nothing below zero,
/// and leaves the counts of allocations as they are.
pub proof fn law_free_takes_off_what_there_is(b: BooksView, size: usize)
    requires
        b.tracking,
    ensures
        size <= b.live ==> freed(b, size).live + size == b.live,
        size > b.live ==> freed(b, size).live == 0,
        b.live_objs > 0 ==> freed(b, size).live_objs + 1 == b.live_objs,
        b.live_objs == 0 ==> freed(b, size).live_objs == 0,
        freed(b, size).allocs == b.allocs,
        freed(b, size).buckets == b.buckets,
        freed(b, size).tracking,
{
}

} // verus!
