//! The parsed-program data model: text and data segments, their entries,
//! and the byte footprint each occupies once laid out.  The allocator
//! and resolver consume and mutate these structures in place.

use vstd::prelude::*;

use crate::instructions::Inst;
use crate::machine::address::Address;

verus! {

/// A contiguous unit of instructions with a single, possibly
/// auto-assigned, base address.
#[derive(Debug)]
pub struct TextSegment {
    pub instructions: Vec<(Option<Address>, Inst)>,
    pub start_address: Option<Address>,
}

impl TextSegment {
    /// Four bytes per instruction.
    pub open spec fn spec_size(self) -> int {
        self.instructions.len() * 4
    }

    pub fn new() -> (r: TextSegment)
        ensures
            r.instructions@ == Seq::<(Option<Address>, Inst)>::empty(),
            r.start_address is None,
    {
        TextSegment { instructions: Vec::new(), start_address: None }
    }

    pub fn size(&self) -> (r: usize)
        requires
            self.spec_size() <= usize::MAX,
        ensures
            r == self.spec_size(),
    {
        self.instructions.len() * 4
    }

    pub fn push_instruction(&mut self, inst: Inst)
        ensures
            final(self).instructions@ == old(self).instructions@.push((None::<Address>, inst)),
            final(self).start_address == old(self).start_address,
    {
        self.instructions.push((None, inst));
    }

    pub fn push_addressed_instruction(&mut self, addr: Address, inst: Inst)
        ensures
            final(self).instructions@ == old(self).instructions@.push((Some(addr), inst)),
            final(self).start_address == old(self).start_address,
    {
        self.instructions.push((Some(addr), inst));
    }
}

/// A string of bytes aligned as one unit.
#[derive(Debug)]
pub struct DataCString {
    pub chars: (Option<Address>, Vec<u8>),
    pub alignment: u32,
    pub null_terminated: bool,
}

impl DataCString {
    pub open spec fn wf(self) -> bool {
        self.alignment >= 1
    }

    /// The whole string is padded as a unit: short strings are padded up
    /// to the alignment, longer ones by the length's remainder.
    pub open spec fn spec_size(self) -> int {
        let len = self.chars.1.len() as int;
        let a = self.alignment as int;
        if a > len {
            a
        } else {
            len + len % a
        }
    }

    pub fn size(&self) -> (r: usize)
        requires
            self.wf(),
            self.spec_size() <= usize::MAX,
        ensures
            r == self.spec_size(),
    {
        let len = self.chars.1.len();
        let alignment = self.alignment as usize;
        let padding = if alignment > len {
            alignment - len
        } else {
            len % alignment
        };
        len + padding
    }
}

/// Individually aligned bytes.
#[derive(Debug)]
pub struct DataBytes {
    pub bytes: (Option<Address>, Vec<u8>),
    pub alignment: u32,
}

impl DataBytes {
    pub open spec fn wf(self) -> bool {
        self.alignment >= 1
    }

    pub open spec fn spec_size(self) -> int {
        self.bytes.1.len() * self.alignment
    }

    pub fn size(&self) -> (r: usize)
        requires
            self.wf(),
            self.spec_size() <= usize::MAX,
        ensures
            r == self.spec_size(),
    {
        self.bytes.1.len() * (self.alignment as usize)
    }
}

/// Individually aligned 16-bit values.
#[derive(Debug)]
pub struct DataHalfs {
    pub halfs: (Option<Address>, Vec<u16>),
    pub alignment: u32,
}

impl DataHalfs {
    pub open spec fn wf(self) -> bool {
        self.alignment >= 1
    }

    pub open spec fn spec_size(self) -> int {
        let a = self.alignment as int;
        let unit: int = if a > 2 {
            a
        } else {
            2
        };
        self.halfs.1.len() * unit
    }

    pub fn size(&self) -> (r: usize)
        requires
            self.wf(),
            self.spec_size() <= usize::MAX,
        ensures
            r == self.spec_size(),
    {
        let len = self.halfs.1.len();
        let alignment = self.alignment as usize;
        let padding = if alignment > 2 {
            alignment - 2
        } else {
            0
        };
        let unit_size = padding + 2;
        len * unit_size
    }
}

/// Individually aligned 32-bit values.
#[derive(Debug)]
pub struct DataWords {
    pub words: (Option<Address>, Vec<u32>),
    pub alignment: u32,
}

impl DataWords {
    pub open spec fn wf(self) -> bool {
        self.alignment >= 1
    }

    pub open spec fn spec_size(self) -> int {
        let a = self.alignment as int;
        let unit: int = if a > 4 {
            a
        } else {
            4
        };
        self.words.1.len() * unit
    }

    pub fn size(&self) -> (r: usize)
        requires
            self.wf(),
            self.spec_size() <= usize::MAX,
        ensures
            r == self.spec_size(),
    {
        let len = self.words.1.len();
        let alignment = self.alignment as usize;
        let padding = if alignment > 4 {
            alignment - 4
        } else {
            0
        };
        let unit_size = padding + 4;
        len * unit_size
    }
}

/// Reserved, zero-filled space.
#[derive(Debug)]
pub struct DataSpace {
    pub spaces: (Option<Address>, Vec<u8>),
}

impl DataSpace {
    pub open spec fn spec_size(self) -> int {
        self.spaces.1.len() as int
    }

    pub fn size(&self) -> (r: usize)
        ensures
            r == self.spec_size(),
    {
        self.spaces.1.len()
    }
}

#[derive(Debug)]
pub enum DataEntry {
    CString(DataCString),
    Bytes(DataBytes),
    Halfs(DataHalfs),
    Words(DataWords),
    Space(DataSpace),
}

impl DataEntry {
    pub open spec fn wf(self) -> bool {
        match self {
            DataEntry::CString(c) => c.wf(),
            DataEntry::Bytes(b) => b.wf(),
            DataEntry::Halfs(h) => h.wf(),
            DataEntry::Words(w) => w.wf(),
            DataEntry::Space(_) => true,
        }
    }

    pub open spec fn spec_size(self) -> int {
        match self {
            DataEntry::CString(c) => c.spec_size(),
            DataEntry::Bytes(b) => b.spec_size(),
            DataEntry::Halfs(h) => h.spec_size(),
            DataEntry::Words(w) => w.spec_size(),
            DataEntry::Space(s) => s.spec_size(),
        }
    }

    pub fn size(&self) -> (r: usize)
        requires
            self.wf(),
            self.spec_size() <= usize::MAX,
        ensures
            r == self.spec_size(),
    {
        match self {
            DataEntry::CString(c) => c.size(),
            DataEntry::Bytes(b) => b.size(),
            DataEntry::Halfs(h) => h.size(),
            DataEntry::Words(w) => w.size(),
            DataEntry::Space(s) => s.size(),
        }
    }
}

/// The total byte footprint of a run of data entries.
pub open spec fn entries_size(s: Seq<DataEntry>) -> int
    decreases s.len(),
{
    if s.len() == 0 {
        0
    } else {
        entries_size(s.drop_last()) + s.last().spec_size()
    }
}

/// An entry's footprint is never negative, so a prefix never exceeds the
/// whole.
pub proof fn lemma_entries_size_take(s: Seq<DataEntry>, k: int)
    requires
        0 <= k <= s.len(),
        forall|i: int| 0 <= i < s.len() ==> (#[trigger] s[i]).wf(),
    ensures
        0 <= entries_size(s.take(k)) <= entries_size(s),
    decreases s.len() - k,
{
    if k == s.len() {
        assert(s.take(k) =~= s);
        lemma_entries_size_nonneg(s);
    } else {
        lemma_entries_size_take(s, k + 1);
        assert(s.take(k + 1).drop_last() =~= s.take(k));
        assert(s.take(k + 1).last() == s[k]);
        lemma_entry_size_nonneg(s[k]);
        assert(forall|i: int| 0 <= i < k ==> #[trigger] s.take(k)[i] == s[i]);
        lemma_entries_size_nonneg(s.take(k));
    }
}

/// Taking one more entry adds exactly that entry's footprint.
pub proof fn lemma_entries_size_unfold(s: Seq<DataEntry>, j: int)
    requires
        0 <= j < s.len(),
    ensures
        entries_size(s.take(j + 1)) == entries_size(s.take(j)) + s[j].spec_size(),
{
    assert(s.take(j + 1).drop_last() =~= s.take(j));
    assert(s.take(j + 1).last() == s[j]);
}

/// A prefix's footprint, seen past the first entry.
pub proof fn lemma_entries_size_shift(s: Seq<DataEntry>, j: int)
    requires
        0 <= j,
        j + 1 <= s.len(),
    ensures
        entries_size(s.take(j + 1)) == s[0].spec_size() + entries_size(s.skip(1).take(j)),
    decreases j,
{
    if j == 0 {
        assert(s.take(1).drop_last() =~= Seq::<DataEntry>::empty());
        assert(s.take(1).last() == s[0]);
        assert(s.skip(1).take(0) =~= Seq::<DataEntry>::empty());
    } else {
        lemma_entries_size_shift(s, j - 1);
        lemma_entries_size_unfold(s, j);
        assert(s.skip(1).take(j).drop_last() =~= s.skip(1).take(j - 1));
        assert(s.skip(1).take(j).last() == s[j]);
    }
}

pub proof fn lemma_entry_size_nonneg(e: DataEntry)
    requires
        e.wf(),
    ensures
        e.spec_size() >= 0,
{
}

proof fn lemma_entries_size_nonneg(s: Seq<DataEntry>)
    requires
        forall|i: int| 0 <= i < s.len() ==> (#[trigger] s[i]).wf(),
    ensures
        entries_size(s) >= 0,
    decreases s.len(),
{
    if s.len() > 0 {
        assert(forall|i: int|
            0 <= i < s.drop_last().len() ==> #[trigger] s.drop_last()[i] == s[i]);
        lemma_entries_size_nonneg(s.drop_last());
        lemma_entry_size_nonneg(s.last());
    }
}

/// A contiguous unit of data entries with a single, possibly
/// auto-assigned, base address.
#[derive(Debug)]
pub struct DataSegment {
    pub data_entries: Vec<DataEntry>,
    pub start_address: Option<Address>,
}

impl DataSegment {
    pub open spec fn wf(self) -> bool {
        forall|i: int| 0 <= i < self.data_entries.len() ==> (#[trigger] self.data_entries[i]).wf()
    }

    pub open spec fn spec_size(self) -> int {
        entries_size(self.data_entries@)
    }

    pub fn new() -> (r: DataSegment)
        ensures
            r.data_entries@ == Seq::<DataEntry>::empty(),
            r.start_address is None,
            r.wf(),
    {
        DataSegment { data_entries: Vec::new(), start_address: None }
    }

    pub fn size(&self) -> (r: usize)
        requires
            self.wf(),
            self.spec_size() <= usize::MAX,
        ensures
            r == self.spec_size(),
    {
        let ghost entries = self.data_entries@;
        let mut acc: usize = 0;
        let mut i: usize = 0;
        while i < self.data_entries.len()
            invariant
                i <= entries.len(),
                entries == self.data_entries@,
                acc == entries_size(entries.take(i as int)),
                forall|k: int| 0 <= k < entries.len() ==> (#[trigger] entries[k]).wf(),
                entries_size(entries) <= usize::MAX,
            decreases entries.len() - i,
        {
            proof {
                lemma_entries_size_take(entries, i as int + 1);
                assert(entries.take(i as int + 1).drop_last() =~= entries.take(i as int));
                assert(entries.take(i as int + 1).last() == entries[i as int]);
                lemma_entries_size_take(entries, i as int);
                lemma_entry_size_nonneg(entries[i as int]);
            }
            let e = &self.data_entries[i];
            acc = acc + e.size();
            i += 1;
        }
        proof {
            assert(entries.take(entries.len() as int) =~= entries);
        }
        acc
    }
}

/// The four segment categories of a parsed program.
#[derive(Debug)]
pub struct Parsed {
    pub text_segment: Vec<TextSegment>,
    pub ktext_segment: Vec<TextSegment>,
    pub data_segment: Vec<DataSegment>,
    pub kdata_segment: Vec<DataSegment>,
}

impl Parsed {
    pub fn new() -> (r: Parsed)
        ensures
            r.text_segment@ == Seq::<TextSegment>::empty(),
            r.ktext_segment@ == Seq::<TextSegment>::empty(),
            r.data_segment@ == Seq::<DataSegment>::empty(),
            r.kdata_segment@ == Seq::<DataSegment>::empty(),
    {
        Parsed {
            text_segment: Vec::new(),
            ktext_segment: Vec::new(),
            data_segment: Vec::new(),
            kdata_segment: Vec::new(),
        }
    }
}

impl Default for Parsed {
    fn default() -> (r: Parsed)
        ensures
            r.text_segment@ == Seq::<TextSegment>::empty(),
            r.ktext_segment@ == Seq::<TextSegment>::empty(),
            r.data_segment@ == Seq::<DataSegment>::empty(),
            r.kdata_segment@ == Seq::<DataSegment>::empty(),
    {
        Parsed::new()
    }
}

} // verus!
