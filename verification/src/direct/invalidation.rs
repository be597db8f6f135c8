//! Which compiled regions a change of guest memory takes away.

use vstd::prelude::*;
use vstd::string::StringExecFns;
use super::error::{DirectJitError, DirectJitErrorKind};
use super::scheduler::RegionKey;

verus! {

#[derive(Clone, Copy, Debug, PartialEq, Eq, Structural)]
pub enum InvalidationKind {
    Mapping { address_space: u64, start: u64, size: u64 },
    InstructionCache { address_space: u64 },
    ExecutableContent { first: u64, second: Option<u64> },
}

/// Guest pages that a region was compiled from. Without an end they reach to the
/// end of the address space.
#[derive(Clone, Copy, Debug, PartialEq, Eq, Structural)]
pub struct CodePageSpan {
    pub start: u64,
    pub end_exclusive: Option<u64>,
}

impl CodePageSpan {
    pub open spec fn end(self) -> int {
        match self.end_exclusive {
            Some(end) => end as int,
            None => 0x1_0000_0000_0000_0000,
        }
    }

    pub open spec fn covers(self, address: int) -> bool {
        self.start <= address < self.end()
    }
}

/// The end of a changed range, cut at the end of the address space.
pub open spec fn range_end(start: u64, size: u64) -> int {
    if start + size < 0x1_0000_0000_0000_0000 {
        start + size
    } else {
        0x1_0000_0000_0000_0000
    }
}

/// The changed range starts before the span ends, and the span before the range ends.
/// A range of no size changes nothing.
pub open spec fn range_overlaps(span: CodePageSpan, start: u64, size: u64) -> bool {
    size != 0 && start < span.end() && span.start < range_end(start, size)
}

pub fn mapping_range_overlaps(span: CodePageSpan, start: u64, size: u64) -> (r: bool)
    ensures
        r == range_overlaps(span, start, size),
{
    if size == 0 {
        return false;
    }
    let limit: u128 = 0x1_0000_0000_0000_0000;
    let changed_start: u128 = start as u128;
    let sum: u128 = changed_start + size as u128;
    let changed_end: u128 = if sum < limit {
        sum
    } else {
        limit
    };
    let span_start: u128 = span.start as u128;
    let span_end: u128 = match span.end_exclusive {
        Some(end) => end as u128,
        None => limit,
    };
    changed_start < span_end && span_start < changed_end
}

/// A span that is not empty overlaps a changed range exactly where some address lies in
/// both.
pub proof fn law_overlap_is_a_common_address(span: CodePageSpan, start: u64, size: u64)
    requires
        span.start < span.end(),
    ensures
        range_overlaps(span, start, size) <==> exists|address: int| #[trigger]
            span.covers(address) && start <= address < range_end(start, size),
{
    if range_overlaps(span, start, size) {
        let witness = if start >= span.start {
            start as int
        } else {
            span.start as int
        };
        assert(span.covers(witness));
    }
}

/// What a list of changes takes away.
pub struct InvalidationSummary {
    pub all: bool,
    pub physical_pages: Vec<u64>,
    pub mapping_ranges: Vec<(u64, u64)>,
}

pub open spec fn changes_all(records: Seq<InvalidationKind>, address_space: u64) -> bool {
    exists|k: int|
        0 <= k < records.len() && #[trigger] records[k] == (InvalidationKind::InstructionCache {
            address_space,
        })
}

pub open spec fn changes_page(records: Seq<InvalidationKind>, page: u64) -> bool {
    exists|k: int|
        0 <= k < records.len() && record_changes_page(#[trigger] records[k], page)
}

pub open spec fn record_changes_page(record: InvalidationKind, page: u64) -> bool {
    match record {
        InvalidationKind::ExecutableContent { first, second } => page == first || Some(page)
            == second,
        _ => false,
    }
}

pub open spec fn changes_range(
    records: Seq<InvalidationKind>,
    address_space: u64,
    start: u64,
    size: u64,
) -> bool {
    records.contains(InvalidationKind::Mapping { address_space, start, size })
}

impl InvalidationSummary {
    /// The summary says exactly what the records say about the address space.
    pub open spec fn summarizes(&self, records: Seq<InvalidationKind>, address_space: u64) -> bool {
        &&& self.all == changes_all(records, address_space)
        &&& forall|page: u64| #[trigger]
            self.physical_pages@.contains(page) <==> changes_page(records, page)
        &&& forall|start: u64, size: u64|
            self.mapping_ranges@.contains((start, size)) <==> #[trigger] changes_range(
                records,
                address_space,
                start,
                size,
            )
    }

    /// Everything changed.
    pub open spec fn is_everything(self) -> bool {
        &&& self.all
        &&& self.physical_pages@.len() == 0
        &&& self.mapping_ranges@.len() == 0
    }

    pub fn everything() -> (r: InvalidationSummary)
        ensures
            r.is_everything(),
    {
        InvalidationSummary { all: true, physical_pages: Vec::new(), mapping_ranges: Vec::new() }
    }
}

/// Sums up the changes that concern an address space.
pub fn summarize_invalidations(records: &Vec<InvalidationKind>, address_space: u64) -> (r:
    InvalidationSummary)
    ensures
        r.summarizes(records@, address_space),
{
    let mut r = InvalidationSummary {
        all: false,
        physical_pages: Vec::new(),
        mapping_ranges: Vec::new(),
    };
    proof {
        assert(records@.take(0) =~= Seq::<InvalidationKind>::empty());
    }
    let mut k: usize = 0;
    while k < records.len()
        invariant
            k <= records@.len(),
            r.summarizes(records@.take(k as int), address_space),
        decreases records@.len() - k,
    {
        let ghost before = records@.take(k as int);
        let ghost after = records@.take(k + 1);
        let ghost pages = r.physical_pages@;
        let ghost ranges = r.mapping_ranges@;
        let ghost record = records@[k as int];
        match records[k] {
            InvalidationKind::Mapping { address_space: changed, start, size } => {
                if changed == address_space {
                    r.mapping_ranges.push((start, size));
                }
            },
            InvalidationKind::InstructionCache { address_space: changed } => {
                if changed == address_space {
                    r.all = true;
                }
            },
            InvalidationKind::ExecutableContent { first, second } => {
                r.physical_pages.push(first);
                if let Some(second) = second {
                    r.physical_pages.push(second);
                }
            },
        }
        proof {
            assert(after =~= before.push(record));
            lemma_one_more(before, after, record, address_space);
            assert forall|page: u64| #[trigger]
                r.physical_pages@.contains(page) <==> changes_page(after, page) by {
                lemma_pages_grow(pages, r.physical_pages@, record, page);
                assert(pages.contains(page) <==> changes_page(before, page));
            }
            assert forall|start: u64, size: u64|
                r.mapping_ranges@.contains((start, size)) <==> #[trigger] changes_range(
                    after,
                    address_space,
                    start,
                    size,
                ) by {
                assert(ranges.contains((start, size)) <==> changes_range(
                    before,
                    address_space,
                    start,
                    size,
                ));
                let wanted = InvalidationKind::Mapping { address_space, start, size };
                assert(r.mapping_ranges@.contains((start, size)) <==> ranges.contains(
                    (start, size),
                ) || record == wanted) by {
                    if r.mapping_ranges@.len() > ranges.len() {
                        let last = r.mapping_ranges@[ranges.len() as int];
                        assert(r.mapping_ranges@ =~= ranges.push(last));
                        if r.mapping_ranges@.contains((start, size)) {
                            let i = choose|i: int|
                                0 <= i < r.mapping_ranges@.len() && r.mapping_ranges@[i] == (
                                    start,
                                    size,
                                );
                            if i < ranges.len() {
                                assert(ranges[i] == (start, size));
                            }
                        }
                        if ranges.contains((start, size)) {
                            let i = choose|i: int| 0 <= i < ranges.len() && ranges[i] == (start, size);
                            assert(r.mapping_ranges@[i] == (start, size));
                        }
                        if record == wanted {
                            assert(r.mapping_ranges@[ranges.len() as int] == (start, size));
                        }
                    }
                }
            }
        }
        k = k + 1;
    }
    proof {
        assert(records@.take(records@.len() as int) =~= records@);
    }
    r
}

proof fn lemma_one_more(
    before: Seq<InvalidationKind>,
    after: Seq<InvalidationKind>,
    record: InvalidationKind,
    address_space: u64,
)
    requires
        after == before.push(record),
    ensures
        changes_all(after, address_space) <==> changes_all(before, address_space) || record == (
        InvalidationKind::InstructionCache { address_space }),
        forall|page: u64| #[trigger]
            changes_page(after, page) <==> changes_page(before, page) || record_changes_page(
                record,
                page,
            ),
        forall|start: u64, size: u64| #[trigger]
            changes_range(after, address_space, start, size) <==> changes_range(
                before,
                address_space,
                start,
                size,
            ) || record == (InvalidationKind::Mapping { address_space, start, size }),
{
    let last = before.len() as int;
    assert(after[last] == record);
    assert forall|k: int| 0 <= k < before.len() implies #[trigger] after[k] == before[k] by {}
    if changes_all(before, address_space) {
        let k = choose|k: int|
            0 <= k < before.len() && #[trigger] before[k] == (InvalidationKind::InstructionCache {
                address_space,
            });
        assert(after[k] == before[k]);
    }
    assert forall|page: u64| #[trigger]
        changes_page(after, page) <==> changes_page(before, page) || record_changes_page(
            record,
            page,
        ) by {
        if changes_page(before, page) {
            let k = choose|k: int|
                0 <= k < before.len() && record_changes_page(#[trigger] before[k], page);
            assert(after[k] == before[k]);
        }
    }
    assert forall|start: u64, size: u64| #[trigger]
        changes_range(after, address_space, start, size) <==> changes_range(
            before,
            address_space,
            start,
            size,
        ) || record == (InvalidationKind::Mapping { address_space, start, size }) by {
        let wanted = InvalidationKind::Mapping { address_space, start, size };
        if before.contains(wanted) {
            let k = choose|k: int| 0 <= k < before.len() && before[k] == wanted;
            assert(after[k] == wanted);
        }
        if after.contains(wanted) {
            let k = choose|k: int| 0 <= k < after.len() && after[k] == wanted;
            if k < before.len() {
                assert(before[k] == wanted);
            }
        }
    }
}

proof fn lemma_pages_grow(before: Seq<u64>, after: Seq<u64>, record: InvalidationKind, page: u64)
    requires
        after == match record {
            InvalidationKind::ExecutableContent { first, second } => match second {
                Some(second) => before.push(first).push(second),
                None => before.push(first),
            },
            _ => before,
        },
    ensures
        after.contains(page) <==> before.contains(page) || record_changes_page(record, page),
{
    if before.contains(page) {
        let k = choose|k: int| 0 <= k < before.len() && before[k] == page;
        assert(after[k] == page);
    }
    if after.contains(page) {
        let k = choose|k: int| 0 <= k < after.len() && after[k] == page;
        if k < before.len() {
            assert(before[k] == page);
        }
    }
    match record {
        InvalidationKind::ExecutableContent { first, second } => {
            assert(after[before.len() as int] == first);
            if second is Some {
                assert(after[before.len() as int + 1] == second->0);
            }
        },
        _ => {},
    }
}

/// A compiled region with what it was compiled from.
pub struct PublishedRegion {
    pub key: RegionKey,
    pub pages: Vec<u64>,
    pub spans: Vec<CodePageSpan>,
}

impl InvalidationSummary {
    /// A changed range overlaps one of the spans.
    pub open spec fn touches(&self, spans: Seq<CodePageSpan>) -> bool {
        exists|i: int, j: int|
            0 <= i < self.mapping_ranges@.len() && 0 <= j < spans.len() && range_overlaps(
                #[trigger] spans[j],
                (#[trigger] self.mapping_ranges@[i]).0,
                self.mapping_ranges@[i].1,
            )
    }

    pub open spec fn affects(&self, region: PublishedRegion) -> bool {
        ||| self.all
        ||| self.touches(region.spans@)
        ||| exists|k: int|
            0 <= k < region.pages@.len() && self.physical_pages@.contains(#[trigger] region.pages@[k])
    }

    fn touches_spans(&self, spans: &Vec<CodePageSpan>) -> (r: bool)
        ensures
            r == self.touches(spans@),
    {
        let mut i: usize = 0;
        while i < self.mapping_ranges.len()
            invariant
                i <= self.mapping_ranges@.len(),
                forall|x: int, y: int|
                    0 <= x < i && 0 <= y < spans@.len() ==> !range_overlaps(
                        #[trigger] spans@[y],
                        (#[trigger] self.mapping_ranges@[x]).0,
                        self.mapping_ranges@[x].1,
                    ),
            decreases self.mapping_ranges@.len() - i,
        {
            let (start, size) = self.mapping_ranges[i];
            let mut j: usize = 0;
            while j < spans.len()
                invariant
                    i < self.mapping_ranges@.len(),
                    j <= spans@.len(),
                    (start, size) == self.mapping_ranges@[i as int],
                    forall|y: int|
                        0 <= y < j ==> !range_overlaps(#[trigger] spans@[y], start, size),
                decreases spans@.len() - j,
            {
                if mapping_range_overlaps(spans[j], start, size) {
                    assert(range_overlaps(
                        spans@[j as int],
                        self.mapping_ranges@[i as int].0,
                        self.mapping_ranges@[i as int].1,
                    ));
                    return true;
                }
                j = j + 1;
            }
            i = i + 1;
        }
        false
    }

    pub fn has_page(&self, page: u64) -> (r: bool)
        ensures
            r == self.physical_pages@.contains(page),
    {
        let mut k: usize = 0;
        while k < self.physical_pages.len()
            invariant
                k <= self.physical_pages@.len(),
                forall|j: int| 0 <= j < k ==> #[trigger] self.physical_pages@[j] != page,
            decreases self.physical_pages@.len() - k,
        {
            if self.physical_pages[k] == page {
                return true;
            }
            k = k + 1;
        }
        false
    }

    /// Whether a region is out of date.
    pub fn affects_published(&self, region: &PublishedRegion) -> (r: bool)
        ensures
            r == self.affects(*region),
    {
        if self.all || self.touches_spans(&region.spans) {
            return true;
        }
        let mut k: usize = 0;
        while k < region.pages.len()
            invariant
                k <= region.pages@.len(),
                forall|j: int|
                    0 <= j < k ==> !self.physical_pages@.contains(#[trigger] region.pages@[j]),
            decreases region.pages@.len() - k,
        {
            if self.has_page(region.pages[k]) {
                assert(self.physical_pages@.contains(region.pages@[k as int]));
                return true;
            }
            k = k + 1;
        }
        false
    }
}

/// The regions of a process: those that run, those that ran, and which pages each
/// has ever depended on.
pub struct Regions {
    pub live: Vec<PublishedRegion>,
    pub retired: Vec<PublishedRegion>,
    pub dependents: Vec<(u64, RegionKey)>,
    pub cursor: u64,
}

/// Why memory does not report its changes.
#[derive(Debug, PartialEq, Eq)]
pub enum ReportFailure {
    /// The history of changes is gone up to the latest cursor.
    HistoryLost { latest: u64 },
    Unreadable { detail: String },
}

pub type InvalidationReport = Result<(u64, Vec<InvalidationKind>), ReportFailure>;

/// What memory says when its changes cannot be read at all.
pub open spec fn unreadable(report: InvalidationReport) -> Option<Seq<char>> {
    match report {
        Err(ReportFailure::Unreadable { detail }) => Some(detail@),
        _ => None,
    }
}

pub open spec fn consume_text(detail: Seq<char>) -> Seq<char> {
    "direct JIT could not consume memory invalidations: "@ + detail
}

pub open spec fn revalidate_text(detail: Seq<char>) -> Seq<char> {
    "direct JIT could not revalidate compiled code: "@ + detail
}

/// What changed since code was read. A lost history changes everything.
pub fn invalidations_since(report: InvalidationReport, address_space: u64) -> (r: Result<
    InvalidationSummary,
    DirectJitError,
>)
    ensures
        match report {
            Ok((_, records)) => r matches Ok(summary) && summary.summarizes(
                records@,
                address_space,
            ),
            Err(ReportFailure::HistoryLost { .. }) => r matches Ok(summary)
                && summary.is_everything(),
            Err(ReportFailure::Unreadable { detail }) => r matches Err(error) && error.is(
                DirectJitErrorKind::Internal,
                revalidate_text(detail@),
            ),
        },
{
    match report {
        Ok((_, records)) => Ok(summarize_invalidations(&records, address_space)),
        Err(ReportFailure::HistoryLost { .. }) => Ok(InvalidationSummary::everything()),
        Err(ReportFailure::Unreadable { detail }) => {
            let text = String::from_str("direct JIT could not revalidate compiled code: ").concat(
                detail.as_str(),
            );
            Err(DirectJitError::internal(text.as_str()))
        },
    }
}

/// What changed, and which regions it took away.
pub struct Reconciled {
    pub summary: InvalidationSummary,
    pub retired: Vec<RegionKey>,
}

impl Reconciled {
    /// What a report does to the regions: the live ones that it reaches are retired
    /// and named, and the rest stay.
    pub open spec fn follows(
        self,
        before: Regions,
        after: Regions,
        report: InvalidationReport,
        address_space: u64,
    ) -> bool {
        &&& match report {
            Ok((cursor, records)) => after.cursor == cursor && self.summary.summarizes(
                records@,
                address_space,
            ),
            Err(ReportFailure::HistoryLost { latest }) => after.cursor == latest
                && self.summary.is_everything(),
            Err(ReportFailure::Unreadable { .. }) => false,
        }
        &&& forall|region: PublishedRegion|
            #![trigger before.live@.contains(region)]
            #![trigger after.live@.contains(region)]
            after.live@.contains(region) <==> before.live@.contains(region) && !before.reached(
                self.summary,
                region.key,
            )
        &&& forall|key: RegionKey|
            #![trigger before.has_live(key)]
            #![trigger self.retired@.contains(key)]
            self.retired@.contains(key) <==> before.has_live(key) && before.reached(
                self.summary,
                key,
            )
        &&& forall|region: PublishedRegion|
            after.retired@.contains(region) <==> #[trigger] before.retired@.contains(region)
                || before.live@.contains(region) && before.reached(self.summary, region.key)
        &&& after.dependents == before.dependents
    }
}

impl Regions {
    /// No two live regions start at one place, and no dependence is noted twice.
    pub open spec fn wf(&self) -> bool {
        &&& forall|i: int, j: int|
            0 <= i < j < self.live@.len() ==> (#[trigger] self.live@[i]).key != (
            #[trigger] self.live@[j]).key
        &&& self.dependents@.no_duplicates()
    }

    /// Every page that a live region was read from is noted with its key.
    pub open spec fn noted(&self) -> bool {
        forall|k: int, p: int|
            0 <= k < self.live@.len() && 0 <= p < self.live@[k].pages@.len()
                ==> self.dependents@.contains(
                (#[trigger] self.live@[k].pages@[p], self.live@[k].key),
            )
    }

    /// The change reaches the region at the key: all do, a page it has depended on
    /// changed, or a mapping that it or a predecessor was read through.
    pub open spec fn reached(&self, summary: InvalidationSummary, key: RegionKey) -> bool {
        ||| summary.all
        ||| exists|k: int|
            0 <= k < self.dependents@.len() && (#[trigger] self.dependents@[k]).1 == key
                && summary.physical_pages@.contains(self.dependents@[k].0)
        ||| exists|k: int|
            0 <= k < self.live@.len() && (#[trigger] self.live@[k]).key == key && summary.touches(
                self.live@[k].spans@,
            )
        ||| exists|k: int|
            0 <= k < self.retired@.len() && (#[trigger] self.retired@[k]).key == key
                && summary.touches(self.retired@[k].spans@)
    }

    fn is_reached(&self, summary: &InvalidationSummary, key: RegionKey) -> (r: bool)
        requires
            self.wf(),
        ensures
            r == self.reached(*summary, key),
    {
        if summary.all {
            return true;
        }
        let mut k: usize = 0;
        while k < self.dependents.len()
            invariant
                k <= self.dependents@.len(),
                forall|j: int|
                    0 <= j < k ==> !((#[trigger] self.dependents@[j]).1 == key
                        && summary.physical_pages@.contains(self.dependents@[j].0)),
            decreases self.dependents@.len() - k,
        {
            let (page, dependent) = self.dependents[k];
            if dependent == key && summary.has_page(page) {
                return true;
            }
            k = k + 1;
        }
        let mut i: usize = 0;
        while i < self.live.len()
            invariant
                i <= self.live@.len(),
                self.wf(),
                forall|j: int|
                    0 <= j < i ==> !((#[trigger] self.live@[j]).key == key && summary.touches(
                        self.live@[j].spans@,
                    )),
            decreases self.live@.len() - i,
        {
            if self.live[i].key == key && summary.touches_spans(&self.live[i].spans) {
                return true;
            }
            i = i + 1;
        }
        let mut m: usize = 0;
        while m < self.retired.len()
            invariant
                m <= self.retired@.len(),
                self.wf(),
                forall|j: int|
                    0 <= j < m ==> !((#[trigger] self.retired@[j]).key == key && summary.touches(
                        self.retired@[j].spans@,
                    )),
            decreases self.retired@.len() - m,
        {
            if self.retired[m].key == key && summary.touches_spans(&self.retired[m].spans) {
                return true;
            }
            m = m + 1;
        }
        false
    }

    /// Retires every region that the change reaches, and names them.
    pub fn retire_reached(&mut self, summary: &InvalidationSummary) -> (r: Vec<RegionKey>)
        requires
            old(self).wf(),
        ensures
            final(self).wf(),
            old(self).noted() ==> final(self).noted(),
            final(self).cursor == old(self).cursor,
            final(self).dependents == old(self).dependents,
            forall|region: PublishedRegion|
                #![trigger old(self).live@.contains(region)]
                #![trigger final(self).live@.contains(region)]
                final(self).live@.contains(region) <==> old(self).live@.contains(region)
                    && !old(self).reached(*summary, region.key),
            forall|region: PublishedRegion|
                final(self).retired@.contains(region) <==> #[trigger] old(self).retired@.contains(
                    region,
                ) || old(self).live@.contains(region) && old(self).reached(*summary, region.key),
            forall|key: RegionKey|
                #![trigger old(self).has_live(key)]
                #![trigger r@.contains(key)]
                r@.contains(key) <==> old(self).has_live(key) && old(self).reached(
                    *summary,
                    key,
                ),
    {
        let mut retired: Vec<RegionKey> = Vec::new();
        let mut doomed: Vec<bool> = Vec::new();
        let mut k: usize = 0;
        while k < self.live.len()
            invariant
                k <= self.live@.len(),
                self.wf(),
                *self == *old(self),
                doomed@.len() == k,
                forall|j: int|
                    0 <= j < k ==> #[trigger] doomed@[j] == old(self).reached(
                        *summary,
                        old(self).live@[j].key,
                    ),
            decreases self.live@.len() - k,
        {
            doomed.push(self.is_reached(summary, self.live[k].key));
            k = k + 1;
        }
        let ghost all = self.live@;
        let ghost gone_before = self.retired@;
        let mut kept: Vec<PublishedRegion> = Vec::new();
        let mut rest: usize = self.live.len();
        proof {
            assert(all.skip(rest as int) =~= Seq::<PublishedRegion>::empty());
        }
        while rest > 0
            invariant
                rest == self.live@.len(),
                rest <= all.len(),
                all == old(self).live@,
                gone_before == old(self).retired@,
                old(self).wf(),
                doomed@.len() == all.len(),
                self.live@ == all.take(rest as int),
                self.cursor == old(self).cursor,
                self.dependents == old(self).dependents,
                forall|j: int|
                    0 <= j < all.len() ==> #[trigger] doomed@[j] == old(self).reached(
                        *summary,
                        all[j].key,
                    ),
                forall|region: PublishedRegion| #[trigger]
                    kept@.contains(region) <==> exists|j: int|
                        rest <= j < all.len() && #[trigger] all[j] == region && !doomed@[j],
                forall|i: int, j: int|
                    0 <= i < j < kept@.len() ==> (#[trigger] kept@[i]).key != (
                    #[trigger] kept@[j]).key,
                forall|region: PublishedRegion| #[trigger]
                    self.retired@.contains(region) <==> gone_before.contains(region) || exists|j: int|
                        rest <= j < all.len() && #[trigger] all[j] == region && doomed@[j],
                forall|key: RegionKey| #[trigger]
                    retired@.contains(key) <==> exists|j: int|
                        rest <= j < all.len() && (#[trigger] all[j]).key == key && doomed@[j],
            decreases rest,
        {
            let ghost kept_before = kept@;
            let ghost retired_before = self.retired@;
            let ghost keys_before = retired@;
            let region = self.live.pop().unwrap();
            rest = rest - 1;
            proof {
                assert(region == all[rest as int]);
                assert(self.live@ =~= all.take(rest as int));
            }
            let key = region.key;
            let ghost moved = region;
            if doomed[rest] {
                retired.push(key);
                self.retired.push(region);
            } else {
                kept.push(region);
            }
            proof {
                lemma_moved(
                    all,
                    doomed@,
                    rest as int,
                    kept_before,
                    kept@,
                    retired_before,
                    self.retired@,
                    gone_before,
                    keys_before,
                    retired@,
                );
                if !doomed@[rest as int] {
                    assert forall|i: int, j: int| 0 <= i < j < kept@.len() implies (
                    #[trigger] kept@[i]).key != (#[trigger] kept@[j]).key by {
                        if j == kept_before.len() {
                            assert(kept_before.contains(kept_before[i]));
                            let a = choose|a: int|
                                rest + 1 <= a < all.len() && #[trigger] all[a] == kept_before[i]
                                    && !doomed@[a];
                            assert(all[rest as int].key != all[a].key);
                        }
                    }
                }
            }
        }
        self.live = kept;
        proof {
            assert forall|region: PublishedRegion|
                self.live@.contains(region) <==> #[trigger] old(self).live@.contains(region) && !old(
                    self,
                ).reached(*summary, region.key) by {
                if all.contains(region) {
                    let j = choose|j: int| 0 <= j < all.len() && all[j] == region;
                    assert(doomed@[j] == old(self).reached(*summary, all[j].key));
                }
            }
            assert forall|region: PublishedRegion|
                self.retired@.contains(region) <==> #[trigger] old(self).retired@.contains(region)
                    || old(self).live@.contains(region) && old(self).reached(
                    *summary,
                    region.key,
                ) by {
                if all.contains(region) {
                    let j = choose|j: int| 0 <= j < all.len() && all[j] == region;
                    assert(doomed@[j] == old(self).reached(*summary, all[j].key));
                }
            }
            assert forall|key: RegionKey|
                retired@.contains(key) <==> #[trigger] old(self).has_live(key) && old(self).reached(
                    *summary,
                    key,
                ) by {
                if old(self).has_live(key) {
                    let j = choose|j: int| 0 <= j < all.len() && (#[trigger] all[j]).key == key;
                    assert(doomed@[j] == old(self).reached(*summary, all[j].key));
                }
            }
            if old(self).noted() {
                assert forall|k: int, p: int|
                    0 <= k < self.live@.len() && 0 <= p
                        < self.live@[k].pages@.len() implies self.dependents@.contains(
                    (#[trigger] self.live@[k].pages@[p], self.live@[k].key),
                ) by {
                    assert(self.live@.contains(self.live@[k]));
                    let j = choose|j: int| 0 <= j < all.len() && all[j] == self.live@[k];
                    assert(old(self).live@[j].pages@[p] == self.live@[k].pages@[p]);
                }
            }
        }
        retired
    }

    pub open spec fn has_live(&self, key: RegionKey) -> bool {
        exists|k: int| 0 <= k < self.live@.len() && (#[trigger] self.live@[k]).key == key
    }

    /// Takes in what memory reports since the cursor, and retires what it reaches.
    /// A lost history takes everything away. Without a report nothing changes.
    pub fn reconcile(&mut self, report: InvalidationReport, address_space: u64) -> (r: Result<
        Reconciled,
        DirectJitError,
    >)
        requires
            old(self).wf(),
        ensures
            final(self).wf(),
            old(self).noted() ==> final(self).noted(),
            match unreadable(report) {
                Some(detail) => {
                    &&& r matches Err(error) && error.is(
                        DirectJitErrorKind::Internal,
                        consume_text(detail),
                    )
                    &&& *final(self) == *old(self)
                },
                None => r matches Ok(reconciled) && reconciled.follows(
                    *old(self),
                    *final(self),
                    report,
                    address_space,
                ),
            },
    {
        let (cursor, summary) = match report {
            Ok((cursor, records)) => (cursor, summarize_invalidations(&records, address_space)),
            Err(ReportFailure::HistoryLost { latest }) => {
                (latest, InvalidationSummary::everything())
            },
            Err(ReportFailure::Unreadable { detail }) => {
                let text = String::from_str(
                    "direct JIT could not consume memory invalidations: ",
                ).concat(detail.as_str());
                return Err(DirectJitError::internal(text.as_str()));
            },
        };
        let retired = self.retire_reached(&summary);
        self.cursor = cursor;
        Ok(Reconciled { summary, retired })
    }
}

proof fn lemma_moved(
    all: Seq<PublishedRegion>,
    doomed: Seq<bool>,
    rest: int,
    kept_before: Seq<PublishedRegion>,
    kept: Seq<PublishedRegion>,
    retired_before: Seq<PublishedRegion>,
    retired: Seq<PublishedRegion>,
    gone: Seq<PublishedRegion>,
    keys_before: Seq<RegionKey>,
    keys: Seq<RegionKey>,
)
    requires
        0 <= rest < all.len(),
        doomed.len() == all.len(),
        forall|region: PublishedRegion| #[trigger]
            kept_before.contains(region) <==> exists|j: int|
                rest + 1 <= j < all.len() && #[trigger] all[j] == region && !doomed[j],
        forall|region: PublishedRegion| #[trigger]
            retired_before.contains(region) <==> gone.contains(region) || exists|j: int|
                rest + 1 <= j < all.len() && #[trigger] all[j] == region && doomed[j],
        forall|key: RegionKey| #[trigger]
            keys_before.contains(key) <==> exists|j: int|
                rest + 1 <= j < all.len() && (#[trigger] all[j]).key == key && doomed[j],
        if doomed[rest] {
            &&& kept == kept_before
            &&& retired == retired_before.push(all[rest])
            &&& keys == keys_before.push(all[rest].key)
        } else {
            &&& kept == kept_before.push(all[rest])
            &&& retired == retired_before
            &&& keys == keys_before
        },
    ensures
        forall|region: PublishedRegion| #[trigger]
            kept.contains(region) <==> exists|j: int|
                rest <= j < all.len() && #[trigger] all[j] == region && !doomed[j],
        forall|region: PublishedRegion| #[trigger]
            retired.contains(region) <==> gone.contains(region) || exists|j: int|
                rest <= j < all.len() && #[trigger] all[j] == region && doomed[j],
        forall|key: RegionKey| #[trigger]
            keys.contains(key) <==> exists|j: int|
                rest <= j < all.len() && (#[trigger] all[j]).key == key && doomed[j],
{
    lemma_push_contains(kept_before, all[rest]);
    lemma_push_contains(retired_before, all[rest]);
    lemma_push_contains(keys_before, all[rest].key);
    assert forall|region: PublishedRegion| #[trigger]
        kept.contains(region) <==> exists|j: int|
            rest <= j < all.len() && #[trigger] all[j] == region && !doomed[j] by {
        if kept.contains(region) && !kept_before.contains(region) {
            assert(all[rest] == region);
        }
        if exists|j: int| rest <= j < all.len() && #[trigger] all[j] == region && !doomed[j] {
            let j = choose|j: int|
                rest <= j < all.len() && #[trigger] all[j] == region && !doomed[j];
            if j > rest {
                assert(kept_before.contains(region));
            }
        }
    }
    assert forall|region: PublishedRegion| #[trigger]
        retired.contains(region) <==> gone.contains(region) || exists|j: int|
            rest <= j < all.len() && #[trigger] all[j] == region && doomed[j] by {
        if retired.contains(region) && !retired_before.contains(region) {
            assert(all[rest] == region);
        }
        if exists|j: int| rest <= j < all.len() && #[trigger] all[j] == region && doomed[j] {
            let j = choose|j: int|
                rest <= j < all.len() && #[trigger] all[j] == region && doomed[j];
            if j > rest {
                assert(retired_before.contains(region));
            }
        }
        if gone.contains(region) {
            assert(retired_before.contains(region));
        }
    }
    assert forall|key: RegionKey| #[trigger]
        keys.contains(key) <==> exists|j: int|
            rest <= j < all.len() && (#[trigger] all[j]).key == key && doomed[j] by {
        if keys.contains(key) && !keys_before.contains(key) {
            assert(all[rest].key == key);
        }
        if exists|j: int| rest <= j < all.len() && (#[trigger] all[j]).key == key && doomed[j] {
            let j = choose|j: int|
                rest <= j < all.len() && (#[trigger] all[j]).key == key && doomed[j];
            if j > rest {
                assert(keys_before.contains(key));
            }
        }
    }
}

proof fn lemma_push_contains<T>(before: Seq<T>, value: T)
    ensures
        forall|x: T| #[trigger] before.push(value).contains(x) <==> before.contains(x) || x == value,
{
    let after = before.push(value);
    assert(after[before.len() as int] == value);
    assert forall|x: T| #[trigger] after.contains(x) <==> before.contains(x) || x == value by {
        if before.contains(x) {
            let k = choose|k: int| 0 <= k < before.len() && before[k] == x;
            assert(after[k] == x);
        }
        if after.contains(x) {
            let k = choose|k: int| 0 <= k < after.len() && after[k] == x;
            if k < before.len() {
                assert(before[k] == x);
            }
        }
    }
}

} // verus!
