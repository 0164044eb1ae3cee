//! A persisted LIFO of 64-bit integers, kept as the exact byte image of its
//! backing file: a flat sequence of 8-byte little-endian entries, the top of
//! the stack at the end of the file.

use vstd::prelude::*;

use crate::error::ContainerError;

verus! {

/// A persisted stack of ids. The image holds `entries` entries of 8 bytes
/// each; pushing appends at end-of-file, popping truncates the last entry.
#[derive(Debug)]
pub struct StackFile {
    bytes: Vec<u8>,
    entries: u64,
}

impl StackFile {
    /// The full file image.
    pub closed spec fn spec_bytes(self) -> Seq<u8> {
        self.bytes@
    }

    /// The number of stored entries.
    pub closed spec fn spec_entries(self) -> u64 {
        self.entries
    }

    /// The stored entries, bottom of the stack first.
    pub open spec fn view(self) -> Seq<u64> {
        Seq::new(
            self.spec_entries() as nat,
            |i: int| vstd::bytes::spec_u64_from_le_bytes(self.spec_bytes().subrange(8 * i, 8 * i + 8)),
        )
    }

    /// The entry counter matches the image length exactly.
    pub open spec fn wf(self) -> bool {
        self.spec_bytes().len() == 8 * self.spec_entries()
    }

    /// A fresh, empty stack over an empty image.
    pub fn new() -> (r: Self)
        ensures
            r.wf(),
            r@ == Seq::<u64>::empty(),
            r.spec_entries() == 0,
            r.spec_bytes() == Seq::<u64>::empty().map_values(|x: u64| 0u8),
    {
        let r = StackFile { bytes: Vec::new(), entries: 0 };
        proof {
            assert(r@ =~= Seq::<u64>::empty());
            assert(r.spec_bytes() =~= Seq::<u64>::empty().map_values(|x: u64| 0u8));
        }
        r
    }

    /// Rebuilds a stack from an existing file image; the entry count is the
    /// image length in 8-byte units. An image with a ragged tail (length not
    /// a multiple of 8) keeps its bytes but is not well formed.
    pub fn open(bytes: Vec<u8>) -> (r: Self)
        ensures
            r.spec_bytes() == bytes@,
            r.spec_entries() == bytes@.len() as u64 / 8,
            bytes@.len() % 8 == 0 ==> r.wf(),
    {
        let entries = (bytes.len() as u64) / 8;
        StackFile { bytes, entries }
    }

    /// Pops the top entry: reads the last 8 bytes, truncates them away, and
    /// decrements the counter. Returns `Ok(None)` on an empty stack.
    pub fn next(&mut self) -> (r: Result<Option<u64>, ContainerError>)
        requires
            old(self).wf(),
        ensures
            final(self).wf(),
            old(self)@.len() == 0 ==> r == Ok::<Option<u64>, ContainerError>(None) && final(self)@
                == old(self)@,
            old(self)@.len() > 0 ==> r == Ok::<Option<u64>, ContainerError>(
                Some(old(self)@.last()),
            ) && final(self)@ == old(self)@.drop_last(),
    {
        if self.entries > 0 {
            let offset = self.bytes.len() - 8;
            let element = vstd::bytes::u64_from_le_bytes(
                vstd::slice::slice_subrange(self.bytes.as_slice(), offset, offset + 8),
            );
            self.bytes.truncate(offset);
            self.entries = self.entries - 1;
            proof {
                assert forall|i: int| 0 <= i < self@.len() implies self@[i] == old(self)@[i] by {
                    assert(self.spec_bytes().subrange(8 * i, 8 * i + 8) =~= old(
                        self,
                    ).spec_bytes().subrange(8 * i, 8 * i + 8));
                }
                assert(self@ =~= old(self)@.drop_last());
                assert(old(self)@.last() == vstd::bytes::spec_u64_from_le_bytes(
                    old(self).spec_bytes().subrange(offset as int, offset + 8),
                ));
            }
            Ok(Some(element))
        } else {
            proof {
                assert(self@ =~= Seq::<u64>::empty());
            }
            Ok(None)
        }
    }

    /// Pushes an entry: appends its 8 little-endian bytes at end-of-file and
    /// increments the counter. Returns the new entry count.
    pub fn add(&mut self, element: u64) -> (r: Result<u64, ContainerError>)
        requires
            old(self).wf(),
            old(self).spec_entries() < u64::MAX,
            old(self).spec_bytes().len() + 8 <= usize::MAX,
        ensures
            final(self).wf(),
            r == Ok::<u64, ContainerError>((old(self).spec_entries() + 1) as u64),
            final(self)@ == old(self)@.push(element),
    {
        let mut encoded = vstd::bytes::u64_to_le_bytes(element);
        self.bytes.append(&mut encoded);
        self.entries = self.entries + 1;
        proof {
            vstd::bytes::lemma_auto_spec_u64_to_from_le_bytes();
            assert forall|i: int| 0 <= i < self@.len() implies self@[i] == old(self)@.push(
                element,
            )[i] by {
                if i < old(self)@.len() {
                    assert(self.spec_bytes().subrange(8 * i, 8 * i + 8) =~= old(
                        self,
                    ).spec_bytes().subrange(8 * i, 8 * i + 8));
                } else {
                    assert(self.spec_bytes().subrange(8 * i, 8 * i + 8)
                        =~= vstd::bytes::spec_u64_to_le_bytes(element));
                }
            }
            assert(self@ =~= old(self)@.push(element));
        }
        Ok(self.entries)
    }

    /// True iff no entry is stored.
    pub fn is_empty(&self) -> (r: bool)
        ensures
            r == (self.spec_entries() == 0),
    {
        self.entries() == 0
    }

    /// The number of stored entries.
    pub fn entries(&self) -> (r: u64)
        ensures
            r == self.spec_entries(),
    {
        self.entries
    }

    /// Empties the stack: counter reset, image truncated to nothing.
    pub fn clear(&mut self) -> (r: Result<(), ContainerError>)
        ensures
            r == Ok::<(), ContainerError>(()),
            final(self).wf(),
            final(self)@ == Seq::<u64>::empty(),
            final(self).spec_entries() == 0,
            final(self).spec_bytes().len() == 0,
    {
        self.entries = 0;
        self.bytes.truncate(0);
        proof {
            assert(self.spec_bytes() =~= Seq::<u8>::empty());
            assert(self@ =~= Seq::<u64>::empty());
        }
        Ok(())
    }

    /// Checks the invariant of a stack rebuilt from an arbitrary image:
    /// the entry counter must account for the image length exactly.
    pub fn validate(&self) -> (r: bool)
        ensures
            r == self.wf(),
    {
        if self.entries > u64::MAX / 8 {
            proof {
                vstd::std_specs::vec::axiom_spec_len(&self.bytes);
            }
            false
        } else {
            self.bytes.len() as u64 == 8 * self.entries
        }
    }

    /// The length in bytes of the file image.
    pub fn file_len(&self) -> (r: usize)
        ensures
            r == self.spec_bytes().len(),
    {
        self.bytes.len()
    }

    /// Borrows the full file image, for the embedding program to persist.
    pub fn as_bytes(&self) -> (r: &Vec<u8>)
        ensures
            r@ == self.spec_bytes(),
    {
        &self.bytes
    }
}

} // verus!
