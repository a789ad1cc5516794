//! A flat VMDK image that has been opened.

use vstd::prelude::*;

use crate::extent::VmdkExtent;

verus! {

/// An open flat image: the handle of its descriptor file, its sizes in bytes, and its extents in
/// virtual-disk order.
#[derive(Debug)]
pub struct FlatVmdk<F> {
    /// The descriptor file. It lists every extent, so locking it guards the whole image.
    pub file: F,
    /// The size of the virtual disk.
    pub size: u64,
    /// The bytes that the image takes up on the host.
    pub physical_size: u64,
    /// The extents.
    pub extents: Vec<VmdkExtent>,
}

impl<F> FlatVmdk<F> {
    /// An image of which only the descriptor file is open: it has no extents and no size yet.
    pub fn new(file: F) -> (res: Self)
        ensures
            res.file == file,
            res.size == 0,
            res.physical_size == 0,
            res.extents@ == Seq::<VmdkExtent>::empty(),
    {
        FlatVmdk { file, size: 0, physical_size: 0, extents: Vec::new() }
    }

    /// The size of the virtual disk.
    pub fn virtual_block_size(&self) -> (res: u64)
        ensures
            res == self.size,
    {
        self.size
    }

    /// The bytes that the image takes up on the host.
    pub fn physical_block_size(&self) -> (res: u64)
        ensures
            res == self.physical_size,
    {
        self.physical_size
    }

    /// A copy of the extents.
    pub fn extents(&self) -> (res: Vec<VmdkExtent>)
        ensures
            res@ == self.extents@,
    {
        let mut res: Vec<VmdkExtent> = Vec::new();
        let mut i: usize = 0;
        while i < self.extents.len()
            invariant
                i <= self.extents@.len(),
                res@ == self.extents@.take(i as int),
            decreases self.extents@.len() - i,
        {
            res.push(self.extents[i]);
            i += 1;
        }
        res
    }

    /// The same image behind `file`, a duplicate of the handle of its descriptor file.
    pub fn with_handle(&self, file: F) -> (res: Self)
        ensures
            res.file == file,
            res.size == self.size,
            res.physical_size == self.physical_size,
            res.extents@ == self.extents@,
    {
        FlatVmdk {
            file,
            size: self.size,
            physical_size: self.physical_size,
            extents: self.extents(),
        }
    }
}

} // verus!
