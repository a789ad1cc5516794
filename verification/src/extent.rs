//! Extents: the pieces of the virtual disk, and where each lies in its backing file.

use vstd::prelude::*;

use crate::error::VmdkIoError;

verus! {

/// The access mode that the descriptor declares for an extent.
#[derive(Clone, Copy, Debug, PartialEq, Eq, Structural)]
pub enum ExtentAccess {
    /// `RW`: reads and writes are served.
    ReadWrite,
    /// `RDONLY`: reads are served, writes are rejected.
    ReadOnly,
    /// `NOACCESS`: nothing is served.
    NoAccess,
}

/// What the worker knows of an extent's open backing file.
#[derive(Clone, Copy, Debug, PartialEq, Eq, Structural)]
pub struct ExtentFile {
    /// The block size to which transfers have to be aligned (the file was opened for direct
    /// I/O), or 0 for a buffered file.
    pub alignment: u64,
}

/// One extent: `length` bytes of the virtual disk from `virtual_start` on, which lie in the
/// backing file from `file_base_offset` on.
#[derive(Clone, Copy, Debug, PartialEq, Eq)]
pub struct VmdkExtent {
    /// Where the extent begins on the virtual disk.
    pub virtual_start: u64,
    /// How many bytes it holds.
    pub length: u64,
    /// What the descriptor lets a guest do with it.
    pub access: ExtentAccess,
    /// Its backing file; an extent without access has none open.
    pub file: Option<ExtentFile>,
    /// Where its first byte lies in the backing file.
    pub file_base_offset: u64,
}

impl VmdkExtent {
    /// The virtual offset just behind the extent.
    pub open spec fn end(self) -> int {
        self.virtual_start + self.length
    }

    /// The extent covers virtual offset `v`.
    pub open spec fn holds(self, v: int) -> bool {
        self.virtual_start <= v < self.end()
    }

    /// Where virtual offset `v` of the extent lies in the backing file.
    pub open spec fn file_position(self, v: int) -> int {
        self.file_base_offset + (v - self.virtual_start)
    }

    /// The access mode lets a read (or else a write) through.
    pub open spec fn permits(self, is_read: bool) -> bool {
        match self.access {
            ExtentAccess::ReadWrite => true,
            ExtentAccess::ReadOnly => is_read,
            ExtentAccess::NoAccess => false,
        }
    }

    /// The extent can take its part of the offsets `[start, end)`: it ends within the 64-bit range
    /// where it begins before `end`, and what it holds of them lies within the 64-bit range of its
    /// file.
    pub open spec fn maps(self, start: int, end: int) -> bool {
        self.virtual_start < end ==> {
            &&& self.end() <= u64::MAX
            &&& self.file is Some && start < self.end() ==> self.file_position(
                if end <= self.end() {
                    end
                } else {
                    self.end()
                },
            ) <= u64::MAX
        }
    }
}

/// Every extent that begins before `limit` ends within the 64-bit range, so that the offsets below
/// `limit` can be looked up.
pub open spec fn ends_fit(extents: Seq<VmdkExtent>, limit: int) -> bool {
    forall|i: int|
        0 <= i < extents.len() && (#[trigger] extents[i]).virtual_start < limit ==> extents[i].end()
            <= u64::MAX
}

/// Every extent can take its part of the offsets `[start, end)`.
pub open spec fn extents_map(extents: Seq<VmdkExtent>, start: int, end: int) -> bool {
    forall|i: int| 0 <= i < extents.len() ==> (#[trigger] extents[i]).maps(start, end)
}

/// Where every extent ends within the 64-bit range, on the virtual disk and in its file, all
/// offsets can be mapped.
pub proof fn law_fitting_extents_map_all(extents: Seq<VmdkExtent>, start: int, end: int)
    requires
        forall|i: int|
            0 <= i < extents.len() ==> (#[trigger] extents[i]).end() <= u64::MAX
                && extents[i].file_base_offset + extents[i].length <= u64::MAX,
    ensures
        extents_map(extents, start, end),
{
}

/// The extents follow one another in virtual-disk order.
pub open spec fn in_disk_order(extents: Seq<VmdkExtent>) -> bool {
    forall|i: int, j: int|
        0 <= i < j < extents.len() ==> (#[trigger] extents[i]).end() <= (
        #[trigger] extents[j]).virtual_start
}

/// No two extents cover the same offset.
pub open spec fn are_disjoint(extents: Seq<VmdkExtent>) -> bool {
    forall|i: int, j: int, v: int|
        0 <= i < extents.len() && 0 <= j < extents.len() && #[trigger] extents[i].holds(v)
            && #[trigger] extents[j].holds(v) ==> i == j
}

/// Extents that follow one another in virtual-disk order are disjoint.
pub proof fn law_disk_order_is_disjoint(extents: Seq<VmdkExtent>)
    requires
        in_disk_order(extents),
    ensures
        are_disjoint(extents),
{
    assert forall|i: int, j: int, v: int|
        0 <= i < extents.len() && 0 <= j < extents.len() && #[trigger] extents[i].holds(v)
            && #[trigger] extents[j].holds(v) implies i == j by {
        if i < j {
            assert(extents[i].end() <= extents[j].virtual_start);
        } else if j < i {
            assert(extents[j].end() <= extents[i].virtual_start);
        }
    }
}

/// Extent `i` is the first one that covers virtual offset `v`.
pub open spec fn is_first_holder(extents: Seq<VmdkExtent>, i: int, v: int) -> bool {
    &&& 0 <= i < extents.len()
    &&& extents[i].holds(v)
    &&& forall|j: int| 0 <= j < i ==> !(#[trigger] extents[j]).holds(v)
}

/// The first extent that covers virtual offset `v`.
pub open spec fn holder(extents: Seq<VmdkExtent>, v: int) -> Option<int> {
    if exists|i: int| is_first_holder(extents, i, v) {
        Some(choose|i: int| is_first_holder(extents, i, v))
    } else {
        None
    }
}

/// Virtual offset `v` lies in an extent that lets the operation through.
pub open spec fn permitted(extents: Seq<VmdkExtent>, v: int, is_read: bool) -> bool {
    holder(extents, v) matches Some(i) && extents[i].permits(is_read)
}

/// What stands against the operation at virtual offset `v`, if anything does.
pub open spec fn objection(extents: Seq<VmdkExtent>, v: int, is_read: bool) -> Option<VmdkIoError> {
    match holder(extents, v) {
        None => Some(VmdkIoError::OutsideExtents),
        Some(i) => match extents[i].access {
            ExtentAccess::NoAccess => Some(VmdkIoError::NoAccess { offset: v as u64 }),
            ExtentAccess::ReadOnly => if is_read {
                None
            } else {
                Some(VmdkIoError::ReadOnly { offset: v as u64 })
            },
            ExtentAccess::ReadWrite => None,
        },
    }
}

/// The first objection that a walk from `cur` to `end` meets, which at each stop looks at the
/// extent found there and goes on behind that extent.
pub open spec fn first_objection(
    extents: Seq<VmdkExtent>,
    cur: int,
    end: int,
    is_read: bool,
) -> Option<VmdkIoError>
    decreases
            if cur < end {
                end - cur
            } else {
                0
            },
{
    if cur >= end {
        None
    } else {
        proof {
            lemma_holder_holds(extents, cur);
        }
        match objection(extents, cur, is_read) {
            Some(e) => Some(e),
            None => first_objection(
                extents,
                extents[holder(extents, cur)->0].end(),
                end,
                is_read,
            ),
        }
    }
}

/// At most one extent is the first that covers an offset.
pub proof fn lemma_holder_is(extents: Seq<VmdkExtent>, i: int, v: int)
    requires
        is_first_holder(extents, i, v),
    ensures
        holder(extents, v) == Some(i),
{
    let k = choose|k: int| is_first_holder(extents, k, v);
    assert(is_first_holder(extents, k, v));
    if k < i {
        assert(!extents[k].holds(v));
    } else if i < k {
        assert(!extents[i].holds(v));
    }
}

/// The extent that `holder` gives covers the offset.
pub proof fn lemma_holder_holds(extents: Seq<VmdkExtent>, v: int)
    ensures
        holder(extents, v) matches Some(i) ==> is_first_holder(extents, i, v),
        holder(extents, v) is None ==> forall|i: int|
            0 <= i < extents.len() ==> !(#[trigger] extents[i]).holds(v),
{
    if holder(extents, v) is None {
        assert forall|i: int| 0 <= i < extents.len() implies !(#[trigger] extents[i]).holds(v) by {
            if extents[i].holds(v) {
                lemma_first_holder_exists(extents, i, v);
            }
        }
    }
}

/// Where some extent covers an offset, there is a first one that does.
proof fn lemma_first_holder_exists(extents: Seq<VmdkExtent>, i: int, v: int)
    requires
        0 <= i < extents.len(),
        extents[i].holds(v),
    ensures
        exists|k: int| is_first_holder(extents, k, v),
    decreases i,
{
    if forall|j: int| 0 <= j < i ==> !(#[trigger] extents[j]).holds(v) {
        assert(is_first_holder(extents, i, v));
    } else {
        let j = choose|j: int| 0 <= j < i && (#[trigger] extents[j]).holds(v);
        lemma_first_holder_exists(extents, j, v);
    }
}

/// Of disjoint extents, every offset that one covers is found in that one.
pub proof fn lemma_holder_disjoint(extents: Seq<VmdkExtent>, i: int, v: int)
    requires
        are_disjoint(extents),
        0 <= i < extents.len(),
        extents[i].holds(v),
    ensures
        holder(extents, v) == Some(i),
{
    assert(is_first_holder(extents, i, v));
    lemma_holder_is(extents, i, v);
}

/// Of disjoint extents, the walk over `[cur, end)` meets no objection if and only if every
/// offset in it lies in an extent that lets the operation through, and the objection it meets is
/// that of the lowest offset against which there is one.
pub proof fn lemma_first_objection_disjoint(
    extents: Seq<VmdkExtent>,
    cur: int,
    end: int,
    is_read: bool,
)
    requires
        are_disjoint(extents),
    ensures
        first_objection(extents, cur, end, is_read) is None <==> forall|v: int|
            cur <= v < end ==> #[trigger] permitted(extents, v, is_read),
        first_objection(extents, cur, end, is_read) matches Some(e) ==> exists|v: int|
            {
                &&& cur <= v < end
                &&& #[trigger] objection(extents, v, is_read) == Some(e)
                &&& forall|w: int| cur <= w < v ==> #[trigger] permitted(extents, w, is_read)
            },
    decreases
            if cur < end {
                end - cur
            } else {
                0
            },
{
    if cur < end {
        lemma_holder_holds(extents, cur);
        if objection(extents, cur, is_read) is None {
            let i = holder(extents, cur)->0;
            let next = extents[i].end();
            assert forall|v: int| cur <= v < next implies #[trigger] permitted(
                extents,
                v,
                is_read,
            ) by {
                lemma_holder_disjoint(extents, i, v);
            }
            lemma_first_objection_disjoint(extents, next, end, is_read);
            if let Some(e) = first_objection(extents, next, end, is_read) {
                let v = choose|v: int|
                    {
                        &&& next <= v < end
                        &&& #[trigger] objection(extents, v, is_read) == Some(e)
                        &&& forall|w: int|
                            next <= w < v ==> #[trigger] permitted(extents, w, is_read)
                    };
                assert forall|w: int| cur <= w < v implies #[trigger] permitted(
                    extents,
                    w,
                    is_read,
                ) by {}
                assert(objection(extents, v, is_read) == Some(e));
                assert(!permitted(extents, v, is_read));
            }
        } else {
            assert(!permitted(extents, cur, is_read));
            assert(objection(extents, cur, is_read) == first_objection(
                extents,
                cur,
                end,
                is_read,
            ));
        }
    }
}

/// The first extent that covers virtual offset `offset`.
pub fn find_extent(extents: &Vec<VmdkExtent>, offset: u64) -> (res: Option<usize>)
    requires
        ends_fit(extents@, offset + 1),
    ensures
        match res {
            Some(i) => holder(extents@, offset as int) == Some(i as int) && is_first_holder(
                extents@,
                i as int,
                offset as int,
            ),
            None => holder(extents@, offset as int) is None,
        },
{
    let mut i: usize = 0;
    while i < extents.len()
        invariant
            i <= extents.len(),
            ends_fit(extents@, offset + 1),
            forall|j: int| 0 <= j < i ==> !(#[trigger] extents@[j]).holds(offset as int),
        decreases extents.len() - i,
    {
        let e = &extents[i];
        assert(extents@[i as int].virtual_start <= offset ==> extents@[i as int].end() <= u64::MAX);
        if offset >= e.virtual_start && offset < e.virtual_start + e.length {
            proof {
                lemma_holder_is(extents@, i as int, offset as int);
            }
            return Some(i);
        }
        i += 1;
    }
    proof {
        lemma_holder_holds(extents@, offset as int);
    }
    None
}

/// Whether every extent can take its part of the offsets `[start, end)`.
pub fn check_extents_map(extents: &Vec<VmdkExtent>, start: u64, end: u64) -> (res: bool)
    ensures
        res == extents_map(extents@, start as int, end as int),
{
    let mut i: usize = 0;
    while i < extents.len()
        invariant
            i <= extents.len(),
            forall|j: int|
                0 <= j < i ==> (#[trigger] extents@[j]).maps(start as int, end as int),
        decreases extents.len() - i,
    {
        let e = &extents[i];
        if e.virtual_start < end {
            if e.virtual_start > u64::MAX - e.length {
                assert(!extents@[i as int].maps(start as int, end as int));
                return false;
            }
            let extent_end: u64 = e.virtual_start + e.length;
            if e.file.is_some() && start < extent_end {
                let top: u64 = if end <= extent_end {
                    end
                } else {
                    extent_end
                };
                if e.file_base_offset > u64::MAX - (top - e.virtual_start) {
                    assert(!extents@[i as int].maps(start as int, end as int));
                    return false;
                }
            }
        }
        assert(extents@[i as int].maps(start as int, end as int));
        i += 1;
    }
    true
}

/// The extent found at an offset is the first in the list whose bytes, `length` of them from
/// `virtual_start` on, include it; none is found if and only if none includes it.
pub proof fn law_first_extent_that_includes_the_offset(extents: Seq<VmdkExtent>, v: int, i: int)
    ensures
        holder(extents, v) == Some(i) <==> {
            &&& 0 <= i < extents.len()
            &&& extents[i].virtual_start <= v
            &&& v - extents[i].virtual_start < extents[i].length
            &&& forall|j: int|
                0 <= j < i ==> v < (#[trigger] extents[j]).virtual_start || v
                    - extents[j].virtual_start >= extents[j].length
        },
        holder(extents, v) is None <==> forall|j: int|
            0 <= j < extents.len() ==> v < (#[trigger] extents[j]).virtual_start || v
                - extents[j].virtual_start >= extents[j].length,
{
    lemma_holder_holds(extents, v);
    if 0 <= i < extents.len() && extents[i].virtual_start <= v && v - extents[i].virtual_start
        < extents[i].length && (forall|j: int|
        0 <= j < i ==> v < (#[trigger] extents[j]).virtual_start || v - extents[j].virtual_start
            >= extents[j].length) {
        assert(is_first_holder(extents, i, v));
        lemma_holder_is(extents, i, v);
    }
    if let Some(k) = holder(extents, v) {
        assert(extents[k].holds(v));
        assert forall|j: int| 0 <= j < k implies v < (#[trigger] extents[j]).virtual_start || v
            - extents[j].virtual_start >= extents[j].length by {
            assert(!extents[j].holds(v));
        }
    } else {
        assert forall|j: int| 0 <= j < extents.len() implies v < (
        #[trigger] extents[j]).virtual_start || v - extents[j].virtual_start
            >= extents[j].length by {
            assert(!extents[j].holds(v));
        }
    }
}

/// The first byte of an extent lies in its file at `file_base_offset`, and each further byte one
/// position further.
pub proof fn law_extents_lie_in_their_files_in_order(e: VmdkExtent, v: int)
    ensures
        e.file_position(e.virtual_start as int) == e.file_base_offset,
        e.file_position(v + 1) == e.file_position(v) + 1,
        e.end() - e.virtual_start == e.length,
{
}

/// A read is let through everywhere but where there is no access, and a write only where reads and
/// writes are; what stands in the way is named with the offset at which it was met.
pub proof fn law_access_modes(extents: Seq<VmdkExtent>, v: u64, i: int)
    requires
        holder(extents, v as int) == Some(i),
    ensures
        extents[i].permits(true) <==> extents[i].access != ExtentAccess::NoAccess,
        extents[i].permits(false) <==> extents[i].access == ExtentAccess::ReadWrite,
        permitted(extents, v as int, true) <==> extents[i].access != ExtentAccess::NoAccess,
        permitted(extents, v as int, false) <==> extents[i].access == ExtentAccess::ReadWrite,
        forall|is_read: bool|
            extents[i].access == ExtentAccess::NoAccess ==> #[trigger] objection(
                extents,
                v as int,
                is_read,
            ) == Some(VmdkIoError::NoAccess { offset: v }),
        extents[i].access == ExtentAccess::ReadOnly ==> objection(extents, v as int, false) == Some(
            VmdkIoError::ReadOnly { offset: v },
        ),
        objection(extents, v as int, true) is Some ==> extents[i].access == ExtentAccess::NoAccess,
        objection(extents, v as int, false) is Some ==> extents[i].access
            != ExtentAccess::ReadWrite,
{
}

/// An offset that no extent includes stands in the way of every operation.
pub proof fn law_nothing_is_let_through_outside_extents(
    extents: Seq<VmdkExtent>,
    v: int,
    is_read: bool,
)
    requires
        holder(extents, v) is None,
    ensures
        !permitted(extents, v, is_read),
        objection(extents, v, is_read) == Some(VmdkIoError::OutsideExtents),
{
}

/// A walk over a range looks at the extent of its first offset, and at the rest of the range behind
/// that extent: it meets something if and only if something stands in the way at the first offset or
/// in the rest, and what it meets is what comes first. Over nothing it meets nothing.
pub proof fn law_walk_goes_extent_by_extent(
    extents: Seq<VmdkExtent>,
    cur: int,
    end: int,
    is_read: bool,
    i: int,
)
    ensures
        cur >= end ==> first_objection(extents, cur, end, is_read) is None,
        cur < end && !permitted(extents, cur, is_read) ==> first_objection(
            extents,
            cur,
            end,
            is_read,
        ) == objection(extents, cur, is_read) && objection(extents, cur, is_read) is Some,
        cur < end && permitted(extents, cur, is_read) && holder(extents, cur) == Some(i)
            ==> first_objection(extents, cur, end, is_read) == first_objection(
            extents,
            extents[i].virtual_start + extents[i].length,
            end,
            is_read,
        ),
{
}

/// Extents that begin at or behind the end of a range, and files of extents that it does not touch,
/// make no difference to whether the range can be mapped; nor do positions of a file that is not
/// open.
pub proof fn law_only_what_is_touched_has_to_fit(e: VmdkExtent, start: int, end: int)
    ensures
        e.virtual_start >= end ==> e.maps(start, end),
        e.virtual_start + e.length <= u64::MAX && (e.file is None || e.virtual_start + e.length
            <= start || e.file_base_offset + e.length <= u64::MAX) ==> e.maps(start, end),
        e.maps(start, end) && e.virtual_start < end ==> e.virtual_start + e.length <= u64::MAX,
{
}

} // verus!
