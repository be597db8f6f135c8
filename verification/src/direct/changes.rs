//! What a report of memory means for the code that was compiled from it.

use vstd::prelude::*;
use super::invalidation::{
    changes_all, changes_page, changes_range, range_overlaps, record_changes_page, CodePageSpan,
    InvalidationKind, InvalidationReport, InvalidationSummary, PublishedRegion, Reconciled, Regions,
};

verus! {

/// The address lies in the span.
pub open spec fn in_span(span: CodePageSpan, address: int) -> bool {
    span.start <= address && match span.end_exclusive {
        Some(end) => address < end,
        None => address < 0x1_0000_0000_0000_0000,
    }
}

/// One change makes code out of date that was read from these pages through these
/// spans of the address space: it maps an address anew that lies in a span, it drops
/// all instructions of the space, or it writes to one of the pages.
pub open spec fn outdates(
    record: InvalidationKind,
    address_space: u64,
    pages: Seq<u64>,
    spans: Seq<CodePageSpan>,
) -> bool {
    match record {
        InvalidationKind::Mapping { address_space: changed, start, size } => changed
            == address_space && exists|j: int, address: int|
            0 <= j < spans.len() && #[trigger] in_span(spans[j], address) && start <= address
                < start + size,
        InvalidationKind::InstructionCache { address_space: changed } => changed == address_space,
        InvalidationKind::ExecutableContent { first, second } => exists|p: int|
            0 <= p < pages.len() && (#[trigger] pages[p] == first || second == Some(pages[p])),
    }
}

pub open spec fn out_of_date(
    records: Seq<InvalidationKind>,
    address_space: u64,
    region: PublishedRegion,
) -> bool {
    exists|k: int|
        0 <= k < records.len() && outdates(
            #[trigger] records[k],
            address_space,
            region.pages@,
            region.spans@,
        )
}

/// No span of the region is empty.
pub open spec fn spans_hold(region: PublishedRegion) -> bool {
    forall|j: int|
        0 <= j < region.spans@.len() ==> in_span(
            #[trigger] region.spans@[j],
            region.spans@[j].start as int,
        )
}

proof fn lemma_touched(
    summary: InvalidationSummary,
    records: Seq<InvalidationKind>,
    address_space: u64,
    spans: Seq<CodePageSpan>,
    k: int,
)
    requires
        summary.summarizes(records, address_space),
        0 <= k < records.len(),
        records[k] is Mapping,
        outdates(records[k], address_space, Seq::<u64>::empty(), spans),
    ensures
        summary.touches(spans),
{
    if let InvalidationKind::Mapping { address_space: changed, start, size } = records[k] {
        assert(records.contains(records[k]));
        assert(changes_range(records, address_space, start, size));
        let i = choose|i: int|
            0 <= i < summary.mapping_ranges@.len() && summary.mapping_ranges@[i] == (start, size);
        let (j, address) = choose|j: int, address: int|
            0 <= j < spans.len() && #[trigger] in_span(spans[j], address) && start <= address
                < start + size;
        assert(range_overlaps(
            spans[j],
            summary.mapping_ranges@[i].0,
            summary.mapping_ranges@[i].1,
        ));
    }
}

proof fn lemma_not_touched(
    summary: InvalidationSummary,
    records: Seq<InvalidationKind>,
    address_space: u64,
    pages: Seq<u64>,
    spans: Seq<CodePageSpan>,
)
    requires
        summary.summarizes(records, address_space),
        forall|j: int|
            0 <= j < spans.len() ==> in_span(#[trigger] spans[j], spans[j].start as int),
        summary.touches(spans),
    ensures
        exists|k: int|
            0 <= k < records.len() && outdates(#[trigger] records[k], address_space, pages, spans),
{
    let (i, j) = choose|i: int, j: int|
        0 <= i < summary.mapping_ranges@.len() && 0 <= j < spans.len() && range_overlaps(
            #[trigger] spans[j],
            (#[trigger] summary.mapping_ranges@[i]).0,
            summary.mapping_ranges@[i].1,
        );
    let (start, size) = summary.mapping_ranges@[i];
    assert(summary.mapping_ranges@.contains((start, size)));
    assert(changes_range(records, address_space, start, size));
    let wanted = InvalidationKind::Mapping { address_space, start, size };
    let k = choose|k: int| 0 <= k < records.len() && records[k] == wanted;
    assert(in_span(spans[j], spans[j].start as int));
    let address = if start >= spans[j].start {
        start as int
    } else {
        spans[j].start as int
    };
    assert(in_span(spans[j], address));
    assert(outdates(records[k], address_space, pages, spans));
}

/// A summary calls code out of date exactly where one of the changes behind it does:
/// a mapping of the address space that shares an address with a span, a drop of its
/// instructions, or a write to a page that the code was read from.
pub proof fn law_affected_code_is_out_of_date(
    summary: InvalidationSummary,
    records: Seq<InvalidationKind>,
    address_space: u64,
    region: PublishedRegion,
)
    requires
        summary.summarizes(records, address_space),
    ensures
        out_of_date(records, address_space, region) ==> summary.affects(region),
        spans_hold(region) && summary.affects(region) ==> out_of_date(
            records,
            address_space,
            region,
        ),
{
    if out_of_date(records, address_space, region) {
        let k = choose|k: int|
            0 <= k < records.len() && outdates(
                #[trigger] records[k],
                address_space,
                region.pages@,
                region.spans@,
            );
        match records[k] {
            InvalidationKind::Mapping { .. } => {
                lemma_touched(summary, records, address_space, region.spans@, k);
            },
            InvalidationKind::InstructionCache { .. } => {
                assert(changes_all(records, address_space));
            },
            InvalidationKind::ExecutableContent { first, second } => {
                let p = choose|p: int|
                    0 <= p < region.pages@.len() && (#[trigger] region.pages@[p] == first || second
                        == Some(region.pages@[p]));
                assert(record_changes_page(records[k], region.pages@[p]));
                assert(summary.physical_pages@.contains(region.pages@[p]));
            },
        }
    }
    if spans_hold(region) && summary.affects(region) {
        if summary.all {
            let k = choose|k: int|
                0 <= k < records.len() && #[trigger] records[k] == (
                InvalidationKind::InstructionCache { address_space });
            assert(outdates(records[k], address_space, region.pages@, region.spans@));
        } else if summary.touches(region.spans@) {
            lemma_not_touched(summary, records, address_space, region.pages@, region.spans@);
        } else {
            let p = choose|p: int|
                0 <= p < region.pages@.len() && summary.physical_pages@.contains(
                    #[trigger] region.pages@[p],
                );
            assert(changes_page(records, region.pages@[p]));
            let k = choose|k: int|
                0 <= k < records.len() && record_changes_page(
                    #[trigger] records[k],
                    region.pages@[p],
                );
            assert(outdates(records[k], address_space, region.pages@, region.spans@));
        }
    }
}

/// After a reconciliation no code that the report makes out of date is live, and none is
/// live where the history was lost.
pub proof fn law_live_code_is_current(
    reconciled: Reconciled,
    before: Regions,
    after: Regions,
    report: InvalidationReport,
    address_space: u64,
    region: PublishedRegion,
)
    requires
        before.noted(),
        reconciled.follows(before, after, report, address_space),
        after.live@.contains(region),
    ensures
        before.live@.contains(region),
        !reconciled.summary.affects(region),
        match report {
            Ok((_, records)) => !out_of_date(records@, address_space, region),
            Err(_) => false,
        },
{
    let summary = reconciled.summary;
    let k = choose|k: int| 0 <= k < before.live@.len() && before.live@[k] == region;
    assert(before.live@.contains(region) && !before.reached(summary, region.key));
    if exists|p: int|
        0 <= p < region.pages@.len() && summary.physical_pages@.contains(
            #[trigger] region.pages@[p],
        ) {
        let p = choose|p: int|
            0 <= p < region.pages@.len() && summary.physical_pages@.contains(
                #[trigger] region.pages@[p],
            );
        let note = (before.live@[k].pages@[p], before.live@[k].key);
        assert(before.dependents@.contains(note));
        let d = choose|d: int| 0 <= d < before.dependents@.len() && before.dependents@[d] == note;
        assert(before.dependents@[d].1 == region.key);
    }
    match report {
        Ok((_, records)) => {
            law_affected_code_is_out_of_date(summary, records@, address_space, region);
        },
        Err(_) => {},
    }
}

/// A reconciliation takes no code away but that of a region which the report makes out of
/// date, or whose earlier code it does: code stays live where no change reaches a page
/// that was ever noted for its place, nor a span of code that is or was there.
pub proof fn law_untouched_code_stays_live(
    reconciled: Reconciled,
    before: Regions,
    after: Regions,
    cursor: u64,
    records: Vec<InvalidationKind>,
    address_space: u64,
    region: PublishedRegion,
)
    requires
        reconciled.follows(before, after, Ok((cursor, records)), address_space),
        before.live@.contains(region),
        forall|other: PublishedRegion|
            #![trigger before.live@.contains(other)]
            #![trigger before.retired@.contains(other)]
            other.key == region.key && (before.live@.contains(other)
                || before.retired@.contains(other)) ==> spans_hold(other) && !out_of_date(
                records@,
                address_space,
                other,
            ),
        forall|page: u64|
            before.dependents@.contains((page, region.key)) ==> !(#[trigger] changes_page(
                records@,
                page,
            )),
    ensures
        after.live@.contains(region),
        !reconciled.retired@.contains(region.key),
        after.retired@.contains(region) ==> before.retired@.contains(region),
{
    let summary = reconciled.summary;
    assert(!before.reached(summary, region.key)) by {
        law_affected_code_is_out_of_date(summary, records@, address_space, region);
        if summary.all {
            let k = choose|k: int|
                0 <= k < records@.len() && #[trigger] records@[k] == (
                InvalidationKind::InstructionCache { address_space });
            assert(outdates(records@[k], address_space, region.pages@, region.spans@));
        }
        assert forall|k: int|
            0 <= k < before.dependents@.len() && (#[trigger] before.dependents@[k]).1
                == region.key implies !summary.physical_pages@.contains(before.dependents@[k].0) by {
            assert(before.dependents@.contains((before.dependents@[k].0, region.key)));
            assert(!changes_page(records@, before.dependents@[k].0));
        }
        assert forall|k: int|
            0 <= k < before.live@.len() && (#[trigger] before.live@[k]).key
                == region.key implies !summary.touches(before.live@[k].spans@) by {
            let other = before.live@[k];
            assert(before.live@.contains(other));
            law_affected_code_is_out_of_date(summary, records@, address_space, other);
        }
        assert forall|k: int|
            0 <= k < before.retired@.len() && (#[trigger] before.retired@[k]).key
                == region.key implies !summary.touches(before.retired@[k].spans@) by {
            let other = before.retired@[k];
            assert(before.retired@.contains(other));
            law_affected_code_is_out_of_date(summary, records@, address_space, other);
        }
    }
    if reconciled.retired@.contains(region.key) {
        assert(before.has_live(region.key));
    }
    if after.retired@.contains(region) {
        assert(before.retired@.contains(region) || before.live@.contains(region)
            && before.reached(summary, region.key));
    }
}

/// Code that a change takes away is kept among the retired code, for those who still run
/// it, and its place is named.
pub proof fn law_code_taken_away_is_kept(
    reconciled: Reconciled,
    before: Regions,
    after: Regions,
    report: InvalidationReport,
    address_space: u64,
    region: PublishedRegion,
)
    requires
        reconciled.follows(before, after, report, address_space),
        before.live@.contains(region),
        !after.live@.contains(region),
    ensures
        after.retired@.contains(region),
        reconciled.retired@.contains(region.key),
{
    let k = choose|k: int| 0 <= k < before.live@.len() && before.live@[k] == region;
    assert(before.live@[k].key == region.key);
    assert(before.has_live(region.key));
    assert(before.reached(reconciled.summary, region.key));
    if before.retired@.contains(region) {
        assert(after.retired@.contains(region));
    }
}

} // verus!
