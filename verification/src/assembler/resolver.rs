//! The symbol resolver.
//!
//! Pass 1 walks each laid-out segment in address order, assigns every
//! entry a concrete address, and records every label it meets, together
//! with synthesized `name@hi` / `name@lo` sub-symbols holding the
//! address's halves.  Pass 2 rewrites every label-carrying operand into
//! its final bit-field immediate.  Every failure is fatal: assembly
//! cannot proceed.

use vstd::prelude::*;
use vstd::map_lib::lemma_submap_of_trans;
use vstd::string::*;

use crate::assembler::assembler::{hi_name, lo_name, make_hi_name, make_lo_name, SymbolTable};
use crate::instructions::itype::ITypeImm;
use crate::instructions::jtype::JTypeImm;
use crate::instructions::Inst;
use crate::machine::address::Address;
use crate::machine::memory::{spec_first_fit, AllocError, Allocator, MemPosition, MemRange};
use crate::parser::parser::{DataEntry, DataSegment, Parsed, TextSegment};

verus! {

/// Why an assembly run stopped.  There is no recovery: the first error
/// aborts the run.
#[derive(Debug)]
pub enum ResolveError {
    /// No free region could satisfy a placement request.
    Placement(AllocError),
    /// Sequential address assignment reached the region's upper bound.
    SegmentTooLarge,
    /// The same symbol name was defined twice.
    DuplicateLabel(String),
    /// An operand references a name the symbol table does not hold.
    UnresolvedLabel(String),
    /// A computed branch or jump operand does not fit its bit field.
    FieldOverflow { label_addr: u32, inst_addr: u32 },
}

/// Whether a name ends in `@hi`.
pub open spec fn is_hi(l: Seq<char>) -> bool {
    l.len() >= 3 && l[l.len() - 3] == '@' && l[l.len() - 2] == 'h' && l[l.len() - 1] == 'i'
}

/// Whether a name ends in `@lo`.
pub open spec fn is_lo(l: Seq<char>) -> bool {
    l.len() >= 3 && l[l.len() - 3] == '@' && l[l.len() - 2] == 'l' && l[l.len() - 1] == 'o'
}

/// The value the table binds a name to, at a given address: the upper
/// half for an `@hi` name, the lower half for an `@lo` name, and the
/// address itself otherwise.
pub open spec fn label_value(l: Seq<char>, addr: u32) -> u32 {
    if is_hi(l) {
        addr >> 16
    } else if is_lo(l) {
        (addr % 0x10000) as u32
    } else {
        addr
    }
}

/// Binding each name in order, failing on the first already-bound name.
pub open spec fn spec_insert_labels(ls: Seq<Seq<char>>, addr: u32, m: Map<Seq<char>, u32>) -> Option<
    Map<Seq<char>, u32>,
>
    decreases ls.len(),
{
    if ls.len() == 0 {
        Some(m)
    } else if m.contains_key(ls[0]) {
        None
    } else {
        spec_insert_labels(ls.skip(1), addr, m.insert(ls[0], label_value(ls[0], addr)))
    }
}

/// The name on which binding a run of names fails: the first of them
/// that is already bound, each earlier one having been bound first.
pub open spec fn spec_first_dup(ls: Seq<Seq<char>>, addr: u32, m: Map<Seq<char>, u32>) -> Seq<
    char,
>
    decreases ls.len(),
{
    if ls.len() == 0 {
        Seq::empty()
    } else if m.contains_key(ls[0]) {
        ls[0]
    } else {
        spec_first_dup(ls.skip(1), addr, m.insert(ls[0], label_value(ls[0], addr)))
    }
}

/// The synthesized names for a run of labels: `l@hi` then `l@lo` for
/// each, in order.
pub open spec fn hi_lo_splits(ls: Seq<Seq<char>>) -> Seq<Seq<char>>
    decreases ls.len(),
{
    if ls.len() == 0 {
        Seq::empty()
    } else {
        hi_lo_splits(ls.drop_last()) + seq![hi_name(ls.last()), lo_name(ls.last())]
    }
}

pub proof fn lemma_hi_lo_splits_len(ls: Seq<Seq<char>>)
    ensures
        hi_lo_splits(ls).len() == 2 * ls.len(),
    decreases ls.len(),
{
    if ls.len() > 0 {
        lemma_hi_lo_splits_len(ls.drop_last());
    }
}

/// The synthesized names sit pairwise: position `2k` holds `ls[k]@hi`,
/// position `2k + 1` holds `ls[k]@lo`.
pub proof fn lemma_hi_lo_splits_index(ls: Seq<Seq<char>>, k: int)
    requires
        0 <= k < ls.len(),
    ensures
        hi_lo_splits(ls)[2 * k] == hi_name(ls[k]),
        hi_lo_splits(ls)[2 * k + 1] == lo_name(ls[k]),
    decreases ls.len(),
{
    lemma_hi_lo_splits_len(ls.drop_last());
    if k == ls.len() - 1 {
    } else {
        lemma_hi_lo_splits_index(ls.drop_last(), k);
    }
}

/// Whether a string ends in `@hi`, decided on characters.
fn str_is_hi(s: &str) -> (r: bool)
    ensures
        r == is_hi(s@),
{
    let n = s.unicode_len();
    if n >= 3 {
        s.get_char(n - 3) == '@' && s.get_char(n - 2) == 'h' && s.get_char(n - 1) == 'i'
    } else {
        false
    }
}

/// Whether a string ends in `@lo`, decided on characters.
fn str_is_lo(s: &str) -> (r: bool)
    ensures
        r == is_lo(s@),
{
    let n = s.unicode_len();
    if n >= 3 {
        s.get_char(n - 3) == '@' && s.get_char(n - 2) == 'l' && s.get_char(n - 1) == 'o'
    } else {
        false
    }
}

/// Hi/lo split correctness: for any label name, the value the table
/// binds its `@hi` name to is the address's upper half, the value of its
/// `@lo` name is the lower half, and `(hi << 16) | lo` reconstructs the
/// address.
pub proof fn lemma_hi_lo_split(l: Seq<char>, addr: u32)
    ensures
        label_value(hi_name(l), addr) == addr >> 16,
        label_value(lo_name(l), addr) == (addr % 0x10000) as u32,
        ((addr >> 16) << 16) | (addr % 0x10000) == addr,
{
    let h = hi_name(l);
    let o = lo_name(l);
    assert(h[h.len() - 3] == '@' && h[h.len() - 2] == 'h' && h[h.len() - 1] == 'i');
    assert(is_hi(h));
    assert(o[o.len() - 3] == '@' && o[o.len() - 2] == 'l' && o[o.len() - 1] == 'o');
    assert(!is_hi(o) && is_lo(o));
    assert(((addr >> 16) << 16) | (addr % 0x10000) == addr) by (bit_vector);
}

/// The label-to-instruction distance in words: a signed 32-bit
/// subtraction of the addresses, arithmetically shifted right by two.
pub open spec fn spec_offset(label_addr: u32, inst_addr: u32) -> int {
    (label_addr - inst_addr) / 4
}

/// The distance must be representable in a signed 32-bit value before
/// it is shifted.
pub open spec fn dist_in_i32(label_addr: u32, inst_addr: u32) -> bool {
    -0x8000_0000 <= label_addr - inst_addr <= 0x7FFF_FFFF
}

/// A branch offset must fit the 16-bit field.
pub open spec fn branch_fits(label_addr: u32, inst_addr: u32) -> bool {
    dist_in_i32(label_addr, inst_addr) && -0x8000 <= spec_offset(label_addr, inst_addr) <= 0x7FFF
}

/// A jump offset must fit the 26-bit field.
pub open spec fn jump_fits(label_addr: u32, inst_addr: u32) -> bool {
    dist_in_i32(label_addr, inst_addr) && -0x200_0000 <= spec_offset(label_addr, inst_addr)
        <= 0x1FF_FFFF
}

/// A word offset as a two's-complement 16-bit field.
pub open spec fn to_u16_twos(off: int) -> u16
    recommends
        -0x8000 <= off <= 0x7FFF,
{
    if off >= 0 {
        off as u16
    } else {
        (off + 0x10000) as u16
    }
}

/// A word offset as a two's-complement 26-bit field.
pub open spec fn to_u26_twos(off: int) -> u32
    recommends
        -0x200_0000 <= off <= 0x1FF_FFFF,
{
    if off >= 0 {
        off as u32
    } else {
        (off + 0x400_0000) as u32
    }
}

/// The 16-bit field a resolved branch carries.
pub open spec fn branch_imm(label_addr: u32, inst_addr: u32) -> u16 {
    to_u16_twos(spec_offset(label_addr, inst_addr))
}

/// The 26-bit field a resolved jump carries.
pub open spec fn jump_imm(label_addr: u32, inst_addr: u32) -> u32 {
    to_u26_twos(spec_offset(label_addr, inst_addr))
}

/// The signed value a 16-bit field denotes.
pub open spec fn sign_ext16(imm: u16) -> int {
    if imm < 0x8000 {
        imm as int
    } else {
        imm - 0x10000
    }
}

/// The word distance between a label and an instruction, failing when
/// the raw distance leaves the signed 32-bit range.
pub fn calculate_offset(label_addr: u32, inst_addr: u32) -> (r: Result<i32, ResolveError>)
    ensures
        r is Ok <==> dist_in_i32(label_addr, inst_addr),
        r matches Ok(off) ==> off == spec_offset(label_addr, inst_addr),
        r matches Err(e) ==> (e matches ResolveError::FieldOverflow { label_addr: la, inst_addr: ia }
            && la == label_addr && ia == inst_addr),
{
    if label_addr >= inst_addr {
        let d = label_addr - inst_addr;
        if d > 0x7FFF_FFFF {
            return Err(ResolveError::FieldOverflow { label_addr, inst_addr });
        }
        Ok((d / 4) as i32)
    } else {
        let m = inst_addr - label_addr;
        if m > 0x8000_0000 {
            return Err(ResolveError::FieldOverflow { label_addr, inst_addr });
        }
        let q = m / 4 + if m % 4 != 0 {
            1
        } else {
            0
        };
        proof {
            let mi = m as int;
            assert(mi == 4 * (mi / 4) + mi % 4);
            assert((-mi) == 4 * ((-mi) / 4) + (-mi) % 4);
            assert((label_addr - inst_addr) / 4 == -(q as int));
        }
        Ok(-(q as i32))
    }
}

/// Offset correctness: for a branch at `inst_addr` whose resolved field
/// encodes the distance to `label_addr`, the field sign-extended and
/// scaled by four carries the branch's own address to the label.
pub proof fn lemma_branch_offset_correctness(label_addr: u32, inst_addr: u32)
    requires
        label_addr % 4 == 0,
        inst_addr % 4 == 0,
        branch_fits(label_addr, inst_addr),
    ensures
        inst_addr + 4 * sign_ext16(branch_imm(label_addr, inst_addr)) == label_addr,
{
    let d = label_addr - inst_addr;
    assert(label_addr == 4 * (label_addr / 4));
    assert(inst_addr == 4 * (inst_addr / 4));
    assert(d == 4 * ((label_addr / 4) - (inst_addr / 4)));
    assert(d / 4 == (label_addr / 4) - (inst_addr / 4)) by {
        let k = (label_addr / 4) - (inst_addr / 4);
        assert((4 * k) / 4 == k) by (nonlinear_arith);
    }
    assert(sign_ext16(to_u16_twos(d / 4)) == d / 4);
}

/// Append the synthesized `@hi`/`@lo` names for every label of this
/// address to its label list.
pub fn generate_hi_lo_labels(address: &mut Address)
    requires
        old(address).label matches Some(v) && v.len() > 0,
    ensures
        final(address).numeric == old(address).numeric,
        final(address).label matches Some(v2) && v2.deep_view() == old(
            address,
        ).label_views() + hi_lo_splits(old(address).label_views()),
{
    let ghost views = address.label_views();
    let mut v = address.label.take().unwrap();
    let numeric = address.numeric;
    let base_len = v.len();
    proof {
        assert(views =~= v.deep_view());
        assert(forall|j: int| 0 <= j < base_len ==> (#[trigger] v@[j])@ == views[j]);
    }
    let mut i: usize = 0;
    while i < base_len
        invariant
            i <= base_len,
            base_len == views.len(),
            v@.len() == base_len + 2 * i,
            forall|j: int| 0 <= j < base_len ==> (#[trigger] v@[j])@ == views[j],
            forall|k: int|
                0 <= k < i ==> (#[trigger] v@[base_len + 2 * k])@ == hi_name(views[k]) && v@[base_len
                    + 2 * k + 1]@ == lo_name(views[k]),
        decreases base_len - i,
    {
        let hi = make_hi_name(&v[i]);
        let lo = make_lo_name(&v[i]);
        let ghost hi_v = hi@;
        let ghost lo_v = lo@;
        let ghost before = v@;
        v.push(hi);
        v.push(lo);
        proof {
            assert(v@[base_len + 2 * (i as int)]@ == hi_name(views[i as int]));
            assert(v@[base_len + 2 * (i as int) + 1]@ == lo_name(views[i as int]));
            assert(forall|j: int| 0 <= j < before.len() ==> #[trigger] v@[j] == before[j]);
        }
        i += 1;
    }
    proof {
        lemma_hi_lo_splits_len(views);
        assert forall|j: int| 0 <= j < v@.len() implies v.deep_view()[j] == (views + hi_lo_splits(
            views,
        ))[j] by {
            if j >= base_len {
                let k = (j - base_len) / 2;
                lemma_hi_lo_splits_index(views, k);
                if (j - base_len) % 2 == 0 {
                    assert(j == base_len + 2 * k);
                    assert((v@[base_len + 2 * k])@ == hi_name(views[k]));
                } else {
                    assert(j == base_len + 2 * k + 1);
                    assert((v@[base_len + 2 * k])@ == hi_name(views[k]));
                    assert((v@[base_len + 2 * k + 1])@ == lo_name(views[k]));
                }
                assert((views + hi_lo_splits(views))[j] == hi_lo_splits(views)[j - base_len]);
            }
        }
        assert(v.deep_view() =~= views + hi_lo_splits(views));
    }
    address.label = Some(v);
    address.numeric = numeric;
}

/// Record every name of this address in the table, giving `@hi`/`@lo`
/// names the address's halves and every other name the address itself.
/// A name already bound is a fatal redefinition.
#[verifier::loop_isolation(false)]
pub fn define_labels(a: &Address, addr: u32, labels: &mut SymbolTable) -> (r: Result<
    (),
    ResolveError,
>)
    requires
        a.label is Some,
        old(labels).wf(),
    ensures
        final(labels).wf(),
        old(labels)@.submap_of(final(labels)@),
        r is Ok <==> spec_insert_labels(a.label_views(), addr, old(labels)@) is Some,
        r is Ok ==> Some(final(labels)@) == spec_insert_labels(
            a.label_views(),
            addr,
            old(labels)@,
        ),
        r matches Err(e) ==> e is DuplicateLabel,
        r matches Err(ResolveError::DuplicateLabel(name)) ==> name@ == spec_first_dup(
            a.label_views(),
            addr,
            old(labels)@,
        ),
{
    let ghost views = a.label_views();
    let ghost m0 = labels@;
    let ls = match &a.label {
        Some(v) => v,
        None => {
            return vstd::pervasive::unreached();
        },
    };
    let n = ls.len();
    proof {
        assert(views =~= ls.deep_view());
        assert(views.skip(0) =~= views);
    }
    let mut i: usize = 0;
    while i < n
        invariant
            i <= n,
            n == views.len(),
            n == ls@.len(),
            forall|j: int| 0 <= j < n ==> (#[trigger] ls@[j])@ == views[j],
            labels.wf(),
            m0.submap_of(labels@),
            spec_insert_labels(views.skip(i as int), addr, labels@) == spec_insert_labels(
                views,
                addr,
                m0,
            ),
            spec_first_dup(views.skip(i as int), addr, labels@) == spec_first_dup(views, addr, m0),
        decreases n - i,
    {
        let name = &ls[i];
        if labels.contains_key(name.as_str()) {
            proof {
                assert(views.skip(i as int)[0] == views[i as int]);
                assert(labels@.contains_key(views[i as int]));
                assert(spec_insert_labels(views.skip(i as int), addr, labels@) is None);
                assert(spec_insert_labels(views, addr, m0) is None);
                assert(spec_insert_labels(a.label_views(), addr, old(labels)@) is None);
                assert(spec_first_dup(views.skip(i as int), addr, labels@) == views[i as int]);
            }
            return Err(ResolveError::DuplicateLabel(name.clone()));
        }
        let value: u32 = if str_is_hi(name.as_str()) {
            addr >> 16
        } else if str_is_lo(name.as_str()) {
            addr % 0x10000
        } else {
            addr
        };
        let ghost before = labels@;
        labels.insert(name.clone(), value);
        proof {
            assert(views.skip(i as int)[0] == views[i as int]);
            assert(views.skip(i as int).skip(1) =~= views.skip(i as int + 1));
            assert forall|k: Seq<char>| #[trigger] before.dom().contains(k) implies labels@.dom().contains(
                k,
            ) && before[k] == labels@[k] by {}
            assert(before.submap_of(labels@));
            lemma_submap_of_trans(m0, before, labels@);
        }
        i += 1;
    }
    proof {
        assert(views.skip(n as int) =~= Seq::<Seq<char>>::empty());
    }
    Ok(())
}

/// Binding a run of names only adds: every old binding survives, and
/// every name of the run is bound to its value at the given address.
pub proof fn lemma_insert_labels_props(ls: Seq<Seq<char>>, addr: u32, m: Map<Seq<char>, u32>)
    requires
        spec_insert_labels(ls, addr, m) is Some,
    ensures
        m.submap_of(spec_insert_labels(ls, addr, m).unwrap()),
        forall|i: int|
            0 <= i < ls.len() ==> spec_insert_labels(ls, addr, m).unwrap().contains_key(
                #[trigger] ls[i],
            ) && spec_insert_labels(ls, addr, m).unwrap()[ls[i]] == label_value(ls[i], addr),
    decreases ls.len(),
{
    if ls.len() > 0 {
        let m2 = m.insert(ls[0], label_value(ls[0], addr));
        let t = ls.skip(1);
        lemma_insert_labels_props(t, addr, m2);
        let result = spec_insert_labels(ls, addr, m).unwrap();
        assert(m2.submap_of(result));
        assert(m2.contains_key(ls[0]) && m2[ls[0]] == label_value(ls[0], addr));
        assert(result.contains_key(ls[0]) && result[ls[0]] == label_value(ls[0], addr));
        assert forall|k: Seq<char>| #[trigger] m.dom().contains(k) implies m2.dom().contains(k)
            && m[k] == m2[k] by {}
        assert(m.submap_of(m2));
        lemma_submap_of_trans(m, m2, result);
        assert forall|i: int| 0 <= i < ls.len() implies result.contains_key(#[trigger] ls[i])
            && result[ls[i]] == label_value(ls[i], addr) by {
            if i >= 1 {
                assert(t[i - 1] == ls[i]);
            }
        }
    }
}

/// The bindings an entry's optional address contributes: every name it
/// carries plus the synthesized `@hi`/`@lo` names.
pub open spec fn spec_define_opt(a: Option<Address>, addr: u32, m: Map<Seq<char>, u32>) -> Option<
    Map<Seq<char>, u32>,
> {
    match a {
        Some(a) => spec_insert_labels(a.label_views() + hi_lo_splits(a.label_views()), addr, m),
        None => Some(m),
    }
}

/// The name on which defining an entry's labels fails.
pub open spec fn spec_opt_dup(a: Option<Address>, addr: u32, m: Map<Seq<char>, u32>) -> Seq<char> {
    match a {
        Some(ad) => spec_first_dup(ad.label_views() + hi_lo_splits(ad.label_views()), addr, m),
        None => Seq::empty(),
    }
}

/// Synthesize the `@hi`/`@lo` names and record all of an entry's names,
/// when it carries an address at all.
pub fn define_opt_labels(a_opt: Option<Address>, addr: u32, labels: &mut SymbolTable) -> (r: Result<
    (),
    ResolveError,
>)
    requires
        a_opt matches Some(a) ==> a.label matches Some(v) && v.len() > 0,
        old(labels).wf(),
    ensures
        final(labels).wf(),
        old(labels)@.submap_of(final(labels)@),
        r is Ok <==> spec_define_opt(a_opt, addr, old(labels)@) is Some,
        r is Ok ==> Some(final(labels)@) == spec_define_opt(a_opt, addr, old(labels)@),
        r matches Err(e) ==> e is DuplicateLabel,
        r matches Err(ResolveError::DuplicateLabel(name)) ==> name@ == spec_opt_dup(
            a_opt,
            addr,
            old(labels)@,
        ),
{
    if let Some(mut a) = a_opt {
        generate_hi_lo_labels(&mut a);
        define_labels(&a, addr, labels)
    } else {
        Ok(())
    }
}

/// The table holds, for every name an entry's address carries, the name
/// itself and its `@hi`/`@lo` split names, each bound to its value at
/// the entry's address.
pub open spec fn entry_labels_recorded(a: Option<Address>, addr: u32, m: Map<Seq<char>, u32>) -> bool {
    a matches Some(ad) ==> forall|j: int|
        0 <= j < ad.label_views().len() ==> {
            let l = #[trigger] ad.label_views()[j];
            &&& m.contains_key(l) && m[l] == label_value(l, addr)
            &&& m.contains_key(hi_name(l)) && m[hi_name(l)] == label_value(hi_name(l), addr)
            &&& m.contains_key(lo_name(l)) && m[lo_name(l)] == label_value(lo_name(l), addr)
        }
}

/// Recorded bindings survive any extension of the table.
proof fn lemma_recorded_mono(
    a: Option<Address>,
    addr: u32,
    m1: Map<Seq<char>, u32>,
    m2: Map<Seq<char>, u32>,
)
    requires
        entry_labels_recorded(a, addr, m1),
        m1.submap_of(m2),
    ensures
        entry_labels_recorded(a, addr, m2),
{
}

/// Defining one entry's labels only adds bindings, and records every
/// name the entry carries together with its split names.
proof fn lemma_define_opt_props(a: Option<Address>, addr: u32, m: Map<Seq<char>, u32>)
    requires
        spec_define_opt(a, addr, m) is Some,
    ensures
        m.submap_of(spec_define_opt(a, addr, m).unwrap()),
        entry_labels_recorded(a, addr, spec_define_opt(a, addr, m).unwrap()),
{
    match a {
        Some(ad) => {
            let views = ad.label_views();
            let combined = views + hi_lo_splits(views);
            lemma_insert_labels_props(combined, addr, m);
            lemma_hi_lo_splits_len(views);
            let result = spec_define_opt(a, addr, m).unwrap();
            assert forall|j: int| 0 <= j < views.len() implies {
                let l = #[trigger] views[j];
                &&& result.contains_key(l) && result[l] == label_value(l, addr)
                &&& result.contains_key(hi_name(l)) && result[hi_name(l)] == label_value(
                    hi_name(l),
                    addr,
                )
                &&& result.contains_key(lo_name(l)) && result[lo_name(l)] == label_value(
                    lo_name(l),
                    addr,
                )
            } by {
                assert(combined[j] == views[j]);
                lemma_hi_lo_splits_index(views, j);
                assert(combined[views.len() + 2 * j] == hi_name(views[j]));
                assert(combined[views.len() + 2 * j + 1] == lo_name(views[j]));
            }
        },
        None => {},
    }
}

/// Pass 1 over one text segment: each instruction is four bytes past
/// the one before it.
pub open spec fn spec_assign_text(
    instrs: Seq<(Option<Address>, Inst)>,
    addr: u32,
    max: u32,
    m: Map<Seq<char>, u32>,
) -> Option<Map<Seq<char>, u32>>
    decreases instrs.len(),
{
    if instrs.len() == 0 {
        Some(m)
    } else {
        match spec_define_opt(instrs[0].0, addr, m) {
            None => None,
            Some(m2) => if addr + 4 >= max {
                None
            } else {
                spec_assign_text(instrs.skip(1), (addr + 4) as u32, max, m2)
            },
        }
    }
}

/// A successful pass over a text segment fits under the region bound,
/// only adds bindings, and records every label of every entry, with its
/// split names, at that entry's address.
pub proof fn lemma_assign_text_props(
    instrs: Seq<(Option<Address>, Inst)>,
    addr: u32,
    max: u32,
    m: Map<Seq<char>, u32>,
)
    requires
        spec_assign_text(instrs, addr, max, m) is Some,
    ensures
        m.submap_of(spec_assign_text(instrs, addr, max, m).unwrap()),
        instrs.len() > 0 ==> addr + 4 * instrs.len() <= max,
        forall|i: int|
            0 <= i < instrs.len() ==> entry_labels_recorded(
                (#[trigger] instrs[i]).0,
                (addr + 4 * i) as u32,
                spec_assign_text(instrs, addr, max, m).unwrap(),
            ),
    decreases instrs.len(),
{
    if instrs.len() > 0 {
        let m2 = spec_define_opt(instrs[0].0, addr, m).unwrap();
        lemma_define_opt_props(instrs[0].0, addr, m);
        let t = instrs.skip(1);
        lemma_assign_text_props(t, (addr + 4) as u32, max, m2);
        let result = spec_assign_text(instrs, addr, max, m).unwrap();
        lemma_submap_of_trans(m, m2, result);
        assert forall|i: int| 0 <= i < instrs.len() implies entry_labels_recorded(
            (#[trigger] instrs[i]).0,
            (addr + 4 * i) as u32,
            result,
        ) by {
            if i == 0 {
                lemma_recorded_mono(instrs[0].0, addr, m2, result);
            } else {
                assert(t[i - 1] == instrs[i]);
                assert((addr + 4) as u32 + 4 * (i - 1) == addr + 4 * i);
            }
        }
    }
}

/// The name on which a pass over a text segment fails, when the
/// failure is a redefinition.
pub open spec fn spec_assign_text_dup(
    instrs: Seq<(Option<Address>, Inst)>,
    addr: u32,
    max: u32,
    m: Map<Seq<char>, u32>,
) -> Seq<char>
    decreases instrs.len(),
{
    if instrs.len() == 0 {
        Seq::empty()
    } else {
        match spec_define_opt(instrs[0].0, addr, m) {
            None => spec_opt_dup(instrs[0].0, addr, m),
            Some(m2) => if addr + 4 >= max {
                Seq::empty()
            } else {
                spec_assign_text_dup(instrs.skip(1), (addr + 4) as u32, max, m2)
            },
        }
    }
}

/// Pass 1: walk a laid-out text segment, assign each instruction its
/// sequential address, and record every label it carries (plain name,
/// `@hi` and `@lo`) at that address.  Fails on a label redefinition or
/// when the running address reaches the region's upper bound.
#[verifier::loop_isolation(false)]
pub fn assign_text_segment_addresses(
    text_segment: &mut TextSegment,
    labels: &mut SymbolTable,
    max_addr: u32,
) -> (r: Result<(), ResolveError>)
    requires
        old(text_segment).start_address matches Some(a) && a.numeric matches Some(s) && s >= 1,
        forall|i: int|
            0 <= i < old(text_segment).instructions.len() ==> ((#[trigger] old(
                text_segment,
            ).instructions@[i]).0 matches Some(ad) ==> ad.label matches Some(v) && v.len() > 0),
        old(labels).wf(),
    ensures
        final(labels).wf(),
        old(labels)@.submap_of(final(labels)@),
        final(text_segment).start_address == old(text_segment).start_address,
        ({
            let s0 = old(text_segment).start_address.unwrap().numeric.unwrap();
            let outcome = spec_assign_text(
                old(text_segment).instructions@,
                s0,
                max_addr,
                old(labels)@,
            );
            &&& (r is Ok <==> outcome is Some)
            &&& (r is Ok ==> Some(final(labels)@) == outcome)
            &&& (r is Ok ==> final(text_segment).instructions@.len() == old(
                text_segment,
            ).instructions@.len())
            &&& (r is Ok ==> forall|i: int|
                0 <= i < old(text_segment).instructions@.len()
                    ==> (#[trigger] final(text_segment).instructions@[i]) == (
                Some(
                    Address {
                        numeric: Some((s0 + 4 * i) as u32),
                        label: None::<Vec<String>>,
                    },
                ),
                old(text_segment).instructions@[i].1,
            ))
            &&& (r matches Err(e) ==> (e is DuplicateLabel || e is SegmentTooLarge))
            &&& (r matches Err(ResolveError::DuplicateLabel(name)) ==> name@
                == spec_assign_text_dup(
                old(text_segment).instructions@,
                s0,
                max_addr,
                old(labels)@,
            ))
        }),
{
    let start: u32 = match &text_segment.start_address {
        Some(a) => match a.numeric {
            Some(s) => s,
            None => {
                return vstd::pervasive::unreached();
            },
        },
        None => {
            return vstd::pervasive::unreached();
        },
    };
    let ghost instrs0 = text_segment.instructions@;
    let ghost m0 = labels@;
    let mut rest: Vec<(Option<Address>, Inst)> = Vec::new();
    core::mem::swap(&mut text_segment.instructions, &mut rest);
    let n = rest.len();
    proof {
        assert(instrs0.skip(0) =~= instrs0);
    }
    let mut addr: u32 = start;
    let mut i: usize = 0;
    while i < n
        invariant
            i <= n,
            n == instrs0.len(),
            rest@ == instrs0.skip(i as int),
            addr == start + 4 * i,
            addr < max_addr || i == 0,
            labels.wf(),
            m0.submap_of(labels@),
            text_segment.start_address == old(text_segment).start_address,
            spec_assign_text(instrs0.skip(i as int), addr, max_addr, labels@) == spec_assign_text(
                instrs0,
                start,
                max_addr,
                m0,
            ),
            spec_assign_text_dup(instrs0.skip(i as int), addr, max_addr, labels@)
                == spec_assign_text_dup(instrs0, start, max_addr, m0),
            text_segment.instructions@.len() == i,
            forall|j: int|
                0 <= j < i ==> (#[trigger] text_segment.instructions@[j]) == (
                Some(Address { numeric: Some((start + 4 * j) as u32), label: None::<Vec<String>> }),
                instrs0[j].1,
            ),
        decreases n - i,
    {
        let ghost entry = instrs0[i as int];
        let (a_opt, inst) = rest.remove(0);
        proof {
            assert((a_opt, inst) == entry);
            assert(instrs0.skip(i as int).skip(1) =~= instrs0.skip(i as int + 1));
        }
        let ghost lpre = labels@;
        let ghost aopt0 = a_opt;
        let res = define_opt_labels(a_opt, addr, labels);
        proof {
            lemma_submap_of_trans(m0, lpre, labels@);
        }
        if let Err(e) = res {
            proof {
                assert(spec_assign_text_dup(instrs0.skip(i as int), addr, max_addr, lpre)
                    == spec_opt_dup(aopt0, addr, lpre));
            }
            return Err(e);
        }
        if addr >= max_addr || max_addr - addr <= 4 {
            return Err(ResolveError::SegmentTooLarge);
        }
        text_segment.instructions.push((Some(Address::from_numeric(addr)), inst));
        addr = addr + 4;
        i += 1;
    }
    proof {
        assert(instrs0.skip(n as int) =~= Seq::<(Option<Address>, Inst)>::empty());
    }
    Ok(())
}

/// The optional address a data entry carries.
pub open spec fn entry_addr(e: DataEntry) -> Option<Address> {
    match e {
        DataEntry::CString(c) => c.chars.0,
        DataEntry::Bytes(b) => b.bytes.0,
        DataEntry::Halfs(h) => h.halfs.0,
        DataEntry::Words(w) => w.words.0,
        DataEntry::Space(s) => s.spaces.0,
    }
}

/// The same entry with its address replaced.
pub open spec fn entry_with_addr(e: DataEntry, a: Option<Address>) -> DataEntry {
    match e {
        DataEntry::CString(c) => DataEntry::CString(
            crate::parser::parser::DataCString { chars: (a, c.chars.1), ..c },
        ),
        DataEntry::Bytes(b) => DataEntry::Bytes(
            crate::parser::parser::DataBytes { bytes: (a, b.bytes.1), ..b },
        ),
        DataEntry::Halfs(h) => DataEntry::Halfs(
            crate::parser::parser::DataHalfs { halfs: (a, h.halfs.1), ..h },
        ),
        DataEntry::Words(w) => DataEntry::Words(
            crate::parser::parser::DataWords { words: (a, w.words.1), ..w },
        ),
        DataEntry::Space(s) => DataEntry::Space(
            crate::parser::parser::DataSpace { spaces: (a, s.spaces.1) },
        ),
    }
}

/// Pass 1 over one data segment: each entry advances the running
/// address by its own byte footprint.
pub open spec fn spec_assign_data(
    entries: Seq<DataEntry>,
    addr: u32,
    max: u32,
    m: Map<Seq<char>, u32>,
) -> Option<Map<Seq<char>, u32>>
    decreases entries.len(),
{
    if entries.len() == 0 {
        Some(m)
    } else {
        match spec_define_opt(entry_addr(entries[0]), addr, m) {
            None => None,
            Some(m2) => if addr + entries[0].spec_size() >= max {
                None
            } else {
                spec_assign_data(
                    entries.skip(1),
                    (addr + entries[0].spec_size()) as u32,
                    max,
                    m2,
                )
            },
        }
    }
}

/// A successful pass over a data segment fits under the region bound,
/// only adds bindings, and records every label of every entry, with its
/// split names, at that entry's address.
pub proof fn lemma_assign_data_props(
    entries: Seq<DataEntry>,
    addr: u32,
    max: u32,
    m: Map<Seq<char>, u32>,
)
    requires
        spec_assign_data(entries, addr, max, m) is Some,
        forall|i: int| 0 <= i < entries.len() ==> (#[trigger] entries[i]).wf(),
    ensures
        m.submap_of(spec_assign_data(entries, addr, max, m).unwrap()),
        forall|i: int|
            0 <= i < entries.len() ==> addr + crate::parser::parser::entries_size(
                entries.take(i),
            ) + (#[trigger] entries[i]).spec_size() < max,
        forall|i: int|
            0 <= i < entries.len() ==> entry_labels_recorded(
                entry_addr(#[trigger] entries[i]),
                (addr + crate::parser::parser::entries_size(entries.take(i))) as u32,
                spec_assign_data(entries, addr, max, m).unwrap(),
            ),
    decreases entries.len(),
{
    if entries.len() > 0 {
        let m2 = spec_define_opt(entry_addr(entries[0]), addr, m).unwrap();
        lemma_define_opt_props(entry_addr(entries[0]), addr, m);
        let t = entries.skip(1);
        assert(forall|i: int| 0 <= i < t.len() ==> #[trigger] t[i] == entries[i + 1]);
        crate::parser::parser::lemma_entry_size_nonneg(entries[0]);
        let addr2 = (addr + entries[0].spec_size()) as u32;
        lemma_assign_data_props(t, addr2, max, m2);
        let result = spec_assign_data(entries, addr, max, m).unwrap();
        lemma_submap_of_trans(m, m2, result);
        lemma_recorded_mono(entry_addr(entries[0]), addr, m2, result);
        assert(entries.take(0) =~= Seq::<DataEntry>::empty());
        assert forall|i: int| 1 <= i < entries.len() implies {
            &&& addr + crate::parser::parser::entries_size(entries.take(i)) + (
            #[trigger] entries[i]).spec_size() < max
            &&& entry_labels_recorded(
                entry_addr(entries[i]),
                (addr + crate::parser::parser::entries_size(entries.take(i))) as u32,
                result,
            )
        } by {
            assert(t[i - 1] == entries[i]);
            crate::parser::parser::lemma_entries_size_shift(entries, i - 1);
            assert(crate::parser::parser::entries_size(entries.take(i)) == entries[0].spec_size()
                + crate::parser::parser::entries_size(t.take(i - 1)));
            assert(addr + entries[0].spec_size() < max);
            assert(addr2 == addr + entries[0].spec_size());
            assert(addr2 + crate::parser::parser::entries_size(t.take(i - 1)) + t[i
                - 1].spec_size() < max);
            assert((addr2 + crate::parser::parser::entries_size(t.take(i - 1))) as u32 == (addr
                + crate::parser::parser::entries_size(entries.take(i))) as u32);
            assert(entry_labels_recorded(
                entry_addr(t[i - 1]),
                (addr2 + crate::parser::parser::entries_size(t.take(i - 1))) as u32,
                result,
            ));
        }
    }
}

/// The name on which a pass over a data segment fails, when the
/// failure is a redefinition.
pub open spec fn spec_assign_data_dup(
    entries: Seq<DataEntry>,
    addr: u32,
    max: u32,
    m: Map<Seq<char>, u32>,
) -> Seq<char>
    decreases entries.len(),
{
    if entries.len() == 0 {
        Seq::empty()
    } else {
        match spec_define_opt(entry_addr(entries[0]), addr, m) {
            None => spec_opt_dup(entry_addr(entries[0]), addr, m),
            Some(m2) => if addr + entries[0].spec_size() >= max {
                Seq::empty()
            } else {
                spec_assign_data_dup(
                    entries.skip(1),
                    (addr + entries[0].spec_size()) as u32,
                    max,
                    m2,
                )
            },
        }
    }
}

/// Pass 1: walk a laid-out data segment, assign each entry its
/// sequential, size-stepped address, and record every label it carries.
/// Fails on a label redefinition or when the running address reaches
/// the region's upper bound.
#[verifier::loop_isolation(false)]
pub fn assign_data_segment_addresses(
    data_segment: &mut DataSegment,
    labels: &mut SymbolTable,
    max_addr: u32,
) -> (r: Result<(), ResolveError>)
    requires
        old(data_segment).start_address matches Some(a) && a.numeric matches Some(s) && s >= 1,
        forall|i: int|
            0 <= i < old(data_segment).data_entries.len() ==> (#[trigger] old(
                data_segment,
            ).data_entries@[i]).wf() && old(data_segment).data_entries@[i].spec_size() <= u32::MAX,
        forall|i: int|
            0 <= i < old(data_segment).data_entries.len() ==> (entry_addr(
                #[trigger] old(data_segment).data_entries@[i],
            ) matches Some(ad) ==> ad.label matches Some(v) && v.len() > 0),
        old(labels).wf(),
    ensures
        final(labels).wf(),
        old(labels)@.submap_of(final(labels)@),
        final(data_segment).start_address == old(data_segment).start_address,
        ({
            let s0 = old(data_segment).start_address.unwrap().numeric.unwrap();
            let entries0 = old(data_segment).data_entries@;
            let outcome = spec_assign_data(entries0, s0, max_addr, old(labels)@);
            &&& (r is Ok <==> outcome is Some)
            &&& (r is Ok ==> Some(final(labels)@) == outcome)
            &&& (r is Ok ==> final(data_segment).data_entries@.len() == entries0.len())
            &&& (r is Ok ==> forall|i: int|
                0 <= i < entries0.len() ==> (#[trigger] final(data_segment).data_entries@[i])
                    == entry_with_addr(
                    entries0[i],
                    Some(
                        Address {
                            numeric: Some(
                                (s0 + crate::parser::parser::entries_size(
                                    entries0.take(i),
                                )) as u32,
                            ),
                            label: None::<Vec<String>>,
                        },
                    ),
                ))
            &&& (r matches Err(e) ==> (e is DuplicateLabel || e is SegmentTooLarge))
            &&& (r matches Err(ResolveError::DuplicateLabel(name)) ==> name@
                == spec_assign_data_dup(
                old(data_segment).data_entries@,
                s0,
                max_addr,
                old(labels)@,
            ))
        }),
{
    let start: u32 = match &data_segment.start_address {
        Some(a) => match a.numeric {
            Some(s) => s,
            None => {
                return vstd::pervasive::unreached();
            },
        },
        None => {
            return vstd::pervasive::unreached();
        },
    };
    let ghost entries0 = data_segment.data_entries@;
    let ghost m0 = labels@;
    let mut rest: Vec<DataEntry> = Vec::new();
    core::mem::swap(&mut data_segment.data_entries, &mut rest);
    let n = rest.len();
    proof {
        assert(entries0.skip(0) =~= entries0);
        assert(entries0.take(0) =~= Seq::<DataEntry>::empty());
    }
    let mut addr: u32 = start;
    let mut i: usize = 0;
    while i < n
        invariant
            i <= n,
            n == entries0.len(),
            rest@ == entries0.skip(i as int),
            addr >= 1,
            addr == start + crate::parser::parser::entries_size(entries0.take(i as int)),
            addr < max_addr || i == 0,
            labels.wf(),
            m0.submap_of(labels@),
            data_segment.start_address == old(data_segment).start_address,
            spec_assign_data(entries0.skip(i as int), addr, max_addr, labels@) == spec_assign_data(
                entries0,
                start,
                max_addr,
                m0,
            ),
            spec_assign_data_dup(entries0.skip(i as int), addr, max_addr, labels@)
                == spec_assign_data_dup(entries0, start, max_addr, m0),
            data_segment.data_entries@.len() == i,
            forall|j: int|
                0 <= j < i ==> (#[trigger] data_segment.data_entries@[j]) == entry_with_addr(
                    entries0[j],
                    Some(
                        Address {
                            numeric: Some(
                                (start + crate::parser::parser::entries_size(
                                    entries0.take(j),
                                )) as u32,
                            ),
                            label: None::<Vec<String>>,
                        },
                    ),
                ),
        decreases n - i,
    {
        let ghost entry0 = entries0[i as int];
        let sz = rest[0].size();
        let e = rest.remove(0);
        proof {
            assert(e == entry0);
            assert(entries0.skip(i as int).skip(1) =~= entries0.skip(i as int + 1));
            assert(entries0.take(i as int + 1).drop_last() =~= entries0.take(i as int));
            assert(entries0.take(i as int + 1).last() == entries0[i as int]);
        }
        let ghost lpre = labels@;
        let new_entry: DataEntry = match e {
            DataEntry::CString(c) => {
                let crate::parser::parser::DataCString { chars, alignment, null_terminated } = c;
                let res = define_opt_labels(chars.0, addr, labels);
                proof {
                    lemma_submap_of_trans(m0, lpre, labels@);
                }
                if let Err(err) = res {
                    proof {
                        assert(spec_assign_data_dup(
                            entries0.skip(i as int),
                            addr,
                            max_addr,
                            lpre,
                        ) == spec_opt_dup(entry_addr(entry0), addr, lpre));
                    }
                    return Err(err);
                }
                DataEntry::CString(
                    crate::parser::parser::DataCString {
                        chars: (Some(Address::from_numeric(addr)), chars.1),
                        alignment,
                        null_terminated,
                    },
                )
            },
            DataEntry::Bytes(b) => {
                let crate::parser::parser::DataBytes { bytes, alignment } = b;
                let res = define_opt_labels(bytes.0, addr, labels);
                proof {
                    lemma_submap_of_trans(m0, lpre, labels@);
                }
                if let Err(err) = res {
                    proof {
                        assert(spec_assign_data_dup(
                            entries0.skip(i as int),
                            addr,
                            max_addr,
                            lpre,
                        ) == spec_opt_dup(entry_addr(entry0), addr, lpre));
                    }
                    return Err(err);
                }
                DataEntry::Bytes(
                    crate::parser::parser::DataBytes {
                        bytes: (Some(Address::from_numeric(addr)), bytes.1),
                        alignment,
                    },
                )
            },
            DataEntry::Halfs(h) => {
                let crate::parser::parser::DataHalfs { halfs, alignment } = h;
                let res = define_opt_labels(halfs.0, addr, labels);
                proof {
                    lemma_submap_of_trans(m0, lpre, labels@);
                }
                if let Err(err) = res {
                    proof {
                        assert(spec_assign_data_dup(
                            entries0.skip(i as int),
                            addr,
                            max_addr,
                            lpre,
                        ) == spec_opt_dup(entry_addr(entry0), addr, lpre));
                    }
                    return Err(err);
                }
                DataEntry::Halfs(
                    crate::parser::parser::DataHalfs {
                        halfs: (Some(Address::from_numeric(addr)), halfs.1),
                        alignment,
                    },
                )
            },
            DataEntry::Words(w) => {
                let crate::parser::parser::DataWords { words, alignment } = w;
                let res = define_opt_labels(words.0, addr, labels);
                proof {
                    lemma_submap_of_trans(m0, lpre, labels@);
                }
                if let Err(err) = res {
                    proof {
                        assert(spec_assign_data_dup(
                            entries0.skip(i as int),
                            addr,
                            max_addr,
                            lpre,
                        ) == spec_opt_dup(entry_addr(entry0), addr, lpre));
                    }
                    return Err(err);
                }
                DataEntry::Words(
                    crate::parser::parser::DataWords {
                        words: (Some(Address::from_numeric(addr)), words.1),
                        alignment,
                    },
                )
            },
            DataEntry::Space(s) => {
                let crate::parser::parser::DataSpace { spaces } = s;
                let res = define_opt_labels(spaces.0, addr, labels);
                proof {
                    lemma_submap_of_trans(m0, lpre, labels@);
                }
                if let Err(err) = res {
                    proof {
                        assert(spec_assign_data_dup(
                            entries0.skip(i as int),
                            addr,
                            max_addr,
                            lpre,
                        ) == spec_opt_dup(entry_addr(entry0), addr, lpre));
                    }
                    return Err(err);
                }
                DataEntry::Space(
                    crate::parser::parser::DataSpace {
                        spaces: (Some(Address::from_numeric(addr)), spaces.1),
                    },
                )
            },
        };
        if addr as u64 + sz as u64 >= max_addr as u64 {
            return Err(ResolveError::SegmentTooLarge);
        }
        data_segment.data_entries.push(new_entry);
        addr = addr + (sz as u32);
        i += 1;
    }
    proof {
        assert(entries0.skip(n as int) =~= Seq::<DataEntry>::empty());
    }
    Ok(())
}

/// What the layout step needs of a text segment as the parser hands it
/// over: at least one instruction, a byte footprint that fits the
/// address space, a well-formed requested start, and a name on every
/// label-carrying entry.
pub open spec fn text_seg_input_wf(seg: TextSegment) -> bool {
    &&& 1 <= seg.instructions.len()
    &&& seg.instructions.len() * 4 <= u32::MAX
    &&& (seg.start_address matches Some(a) ==> a.wf())
    &&& forall|i: int|
        0 <= i < seg.instructions.len() ==> ((#[trigger] seg.instructions@[i]).0 matches Some(ad)
            ==> ad.label matches Some(v) && v.len() > 0)
}

/// The same, for a data segment.
pub open spec fn data_seg_input_wf(seg: DataSegment) -> bool {
    &&& 1 <= seg.spec_size()
    &&& seg.spec_size() <= u32::MAX
    &&& (seg.start_address matches Some(a) ==> a.wf())
    &&& forall|i: int|
        0 <= i < seg.data_entries.len() ==> (#[trigger] seg.data_entries@[i]).wf()
            && seg.data_entries@[i].spec_size() <= u32::MAX
    &&& forall|i: int|
        0 <= i < seg.data_entries.len() ==> (entry_addr(#[trigger] seg.data_entries@[i]) matches
            Some(ad) ==> ad.label matches Some(v) && v.len() > 0)
}

/// After pass 1, a segment's start and every entry's address are
/// concrete, and each instruction sits four bytes past the one before.
pub open spec fn text_segment_addressed(seg: TextSegment) -> bool {
    &&& seg.start_address matches Some(a) && a.numeric matches Some(n) && n >= 1
    &&& forall|i: int|
        0 <= i < seg.instructions.len() ==> (#[trigger] seg.instructions@[i]).0 == Some(
            Address {
                numeric: Some(
                    (seg.start_address.unwrap().numeric.unwrap() + 4 * i) as u32,
                ),
                label: None::<Vec<String>>,
            },
        )
}

/// After pass 2, every operand is in its resolved form.
pub open spec fn text_segment_resolved(seg: TextSegment) -> bool {
    forall|i: int|
        0 <= i < seg.instructions.len() ==> (#[trigger] seg.instructions@[i]).1.is_resolved()
            && seg.instructions@[i].1.wf()
}

/// The placement request a text segment induces: its optional requested
/// start, its byte footprint, and its own index as the back-reference.
pub open spec fn text_position_of(seg: TextSegment, idx: int) -> MemPosition {
    MemPosition {
        lower: match seg.start_address {
            Some(a) => a.numeric,
            None => None::<u32>,
        },
        upper: None::<u32>,
        size: (seg.instructions.len() * 4) as u32,
        data: Some(idx as usize),
    }
}

pub open spec fn positions_of_text(segs: Seq<TextSegment>) -> Seq<MemPosition> {
    Seq::new(segs.len(), |i: int| text_position_of(segs[i], i))
}

/// The segment with the allocator's start written in; the labels of the
/// requested start, if any, are kept.
pub open spec fn text_with_start(seg: TextSegment, lo: u32) -> TextSegment {
    TextSegment {
        instructions: seg.instructions,
        start_address: Some(
            Address {
                numeric: Some(lo),
                label: match seg.start_address {
                    Some(a) => a.label,
                    None => None::<Vec<String>>,
                },
            },
        ),
    }
}

/// Write every allocated range's start into its segment, in range order.
pub open spec fn spec_apply_text_starts(
    segs: Seq<TextSegment>,
    ranges: Seq<MemRange>,
) -> Seq<TextSegment>
    decreases ranges.len(),
{
    if ranges.len() == 0 {
        segs
    } else {
        let segs2 = match ranges[0].data {
            Some(idx) => if idx < segs.len() {
                segs.update(idx as int, text_with_start(segs[idx as int], ranges[0].lower))
            } else {
                segs
            },
            None => segs,
        };
        spec_apply_text_starts(segs2, ranges.skip(1))
    }
}

/// Pass 1 over a whole started segment list, threading the table.
pub open spec fn spec_assign_text_all(
    segs: Seq<TextSegment>,
    max: u32,
    m: Map<Seq<char>, u32>,
) -> Option<Map<Seq<char>, u32>>
    decreases segs.len(),
{
    if segs.len() == 0 {
        Some(m)
    } else {
        match spec_assign_text(
            segs[0].instructions@,
            segs[0].start_address.unwrap().numeric.unwrap(),
            max,
            m,
        ) {
            None => None,
            Some(m2) => spec_assign_text_all(segs.skip(1), max, m2),
        }
    }
}

/// The whole text layout stage: the window is partitioned among the
/// segments' placement requests, and pass 1 then succeeds on every
/// started segment in order.
pub open spec fn spec_layout_text(
    segs: Seq<TextSegment>,
    min: u32,
    max: u32,
    m: Map<Seq<char>, u32>,
) -> Option<Map<Seq<char>, u32>> {
    match spec_first_fit(positions_of_text(segs), min, max) {
        None => None,
        Some(ranges) => spec_assign_text_all(spec_apply_text_starts(segs, ranges), max, m),
    }
}

/// A segment has received a concrete, non-zero start address.
pub open spec fn text_start_set(seg: TextSegment) -> bool {
    seg.start_address matches Some(a) && a.numeric matches Some(v) && v >= 1
}

/// The placement request a data segment induces.
pub open spec fn data_position_of(seg: DataSegment, idx: int) -> MemPosition {
    MemPosition {
        lower: match seg.start_address {
            Some(a) => a.numeric,
            None => None::<u32>,
        },
        upper: None::<u32>,
        size: seg.spec_size() as u32,
        data: Some(idx as usize),
    }
}

pub open spec fn positions_of_data(segs: Seq<DataSegment>) -> Seq<MemPosition> {
    Seq::new(segs.len(), |i: int| data_position_of(segs[i], i))
}

/// The segment with the allocator's start written in; the labels of the
/// requested start, if any, are kept.
pub open spec fn data_with_start(seg: DataSegment, lo: u32) -> DataSegment {
    DataSegment {
        data_entries: seg.data_entries,
        start_address: Some(
            Address {
                numeric: Some(lo),
                label: match seg.start_address {
                    Some(a) => a.label,
                    None => None::<Vec<String>>,
                },
            },
        ),
    }
}

/// Write every allocated range's start into its segment, in range order.
pub open spec fn spec_apply_data_starts(
    segs: Seq<DataSegment>,
    ranges: Seq<MemRange>,
) -> Seq<DataSegment>
    decreases ranges.len(),
{
    if ranges.len() == 0 {
        segs
    } else {
        let segs2 = match ranges[0].data {
            Some(idx) => if idx < segs.len() {
                segs.update(idx as int, data_with_start(segs[idx as int], ranges[0].lower))
            } else {
                segs
            },
            None => segs,
        };
        spec_apply_data_starts(segs2, ranges.skip(1))
    }
}

/// Pass 1 over a whole started segment list, threading the table.
pub open spec fn spec_assign_data_all(
    segs: Seq<DataSegment>,
    max: u32,
    m: Map<Seq<char>, u32>,
) -> Option<Map<Seq<char>, u32>>
    decreases segs.len(),
{
    if segs.len() == 0 {
        Some(m)
    } else {
        match spec_assign_data(
            segs[0].data_entries@,
            segs[0].start_address.unwrap().numeric.unwrap(),
            max,
            m,
        ) {
            None => None,
            Some(m2) => spec_assign_data_all(segs.skip(1), max, m2),
        }
    }
}

/// The whole data layout stage.
pub open spec fn spec_layout_data(
    segs: Seq<DataSegment>,
    min: u32,
    max: u32,
    m: Map<Seq<char>, u32>,
) -> Option<Map<Seq<char>, u32>> {
    match spec_first_fit(positions_of_data(segs), min, max) {
        None => None,
        Some(ranges) => spec_assign_data_all(spec_apply_data_starts(segs, ranges), max, m),
    }
}

/// A segment has received a concrete, non-zero start address.
pub open spec fn data_start_set(seg: DataSegment) -> bool {
    seg.start_address matches Some(a) && a.numeric matches Some(v) && v >= 1
}

/// Lay the text segments out in `[min_addr, max_addr]` and run pass 1
/// over each: segments with a requested start keep exactly it, the rest
/// are first-fit packed, and every instruction then receives its
/// sequential address while its labels are recorded.
#[verifier::loop_isolation(false)]
#[verifier::rlimit(100)]
pub fn layout_text_segment(
    text_segment_entries: &mut Vec<TextSegment>,
    labels: &mut SymbolTable,
    min_addr: u32,
    max_addr: u32,
) -> (r: Result<(), ResolveError>)
    requires
        1 <= min_addr <= max_addr,
        max_addr - min_addr < u32::MAX,
        old(labels).wf(),
        forall|s: int|
            0 <= s < old(text_segment_entries).len() ==> text_seg_input_wf(
                #[trigger] old(text_segment_entries)@[s],
            ),
    ensures
        final(labels).wf(),
        old(labels)@.submap_of(final(labels)@),
        final(text_segment_entries).len() == old(text_segment_entries).len(),
        r is Ok ==> forall|s: int|
            0 <= s < final(text_segment_entries).len() ==> {
                &&& text_segment_addressed(#[trigger] final(text_segment_entries)@[s])
                &&& final(text_segment_entries)@[s].instructions@.len() == old(
                    text_segment_entries,
                )@[s].instructions@.len()
                &&& forall|i: int|
                    0 <= i < final(text_segment_entries)@[s].instructions@.len() ==> (
                    #[trigger] final(text_segment_entries)@[s].instructions@[i]).1 == old(
                        text_segment_entries,
                    )@[s].instructions@[i].1
            },
        r matches Err(e) ==> (e is Placement || e is DuplicateLabel || e is SegmentTooLarge),
        r is Ok ==> forall|s: int, i: int|
            0 <= s < old(text_segment_entries).len() && 0 <= i < old(
                text_segment_entries,
            )@[s].instructions@.len() ==> entry_labels_recorded(
                (#[trigger] old(text_segment_entries)@[s].instructions@[i]).0,
                (final(text_segment_entries)@[s].start_address.unwrap().numeric.unwrap() + 4
                    * i) as u32,
                final(labels)@,
            ),
        r is Ok <==> spec_layout_text(
            old(text_segment_entries)@,
            min_addr,
            max_addr,
            old(labels)@,
        ) is Some,
        r is Ok ==> Some(final(labels)@) == spec_layout_text(
            old(text_segment_entries)@,
            min_addr,
            max_addr,
            old(labels)@,
        ),
        r is Ok ==> forall|s: int|
            0 <= s < final(text_segment_entries).len()
                ==> (#[trigger] final(text_segment_entries)@[s]).start_address
                == spec_apply_text_starts(
                old(text_segment_entries)@,
                spec_first_fit(
                    positions_of_text(old(text_segment_entries)@),
                    min_addr,
                    max_addr,
                ).unwrap(),
            )[s].start_address,
        r is Ok ==> forall|s: int|
            0 <= s < final(text_segment_entries).len() ==> {
                let start = (#[trigger] final(text_segment_entries)@[s]).start_address.unwrap().numeric.unwrap();
                min_addr <= start && start + 4 * final(text_segment_entries)@[s].instructions@.len()
                    <= max_addr
            },
{
    let ghost segs0 = text_segment_entries@;
    let ghost lab0 = labels@;
    let n = text_segment_entries.len();
    let mut positions: Vec<MemPosition> = Vec::new();
    let mut idx: usize = 0;
    while idx < n
        invariant
            idx <= n,
            positions@.len() == idx,
            text_segment_entries@ == segs0,
            forall|k: int| 0 <= k < idx ==> (#[trigger] positions@[k]).wf(),
            forall|k: int| 0 <= k < idx ==> (#[trigger] positions@[k]).data == Some(k as usize),
            positions@ == positions_of_text(segs0).take(idx as int),
        decreases n - idx,
    {
        let size = {
            let seg = &text_segment_entries[idx];
            seg.size()
        };
        let lower: Option<u32> = match &text_segment_entries[idx].start_address {
            Some(a) => a.numeric,
            None => None,
        };
        positions.push(MemPosition::new(lower, None, size as u32, Some(idx)));
        proof {
            assert(positions@ =~= positions_of_text(segs0).take(idx as int + 1));
        }
        idx += 1;
    }
    proof {
        assert(positions@ =~= positions_of_text(segs0));
    }
    let ranges = match Allocator::first_fit(&positions, min_addr, max_addr) {
        Ok(v) => v,
        Err(e) => {
            return Err(ResolveError::Placement(e));
        },
    };
    proof {
        crate::machine::memory::lemma_tiles_window(ranges@, min_addr, max_addr);
        assert(Some(ranges@) == spec_first_fit(positions_of_text(segs0), min_addr, max_addr));
        assert(spec_apply_text_starts(text_segment_entries@, ranges@.skip(0)) == spec_apply_text_starts(
            segs0,
            ranges@,
        )) by {
            assert(ranges@.skip(0) =~= ranges@);
        }
    }
    let rn = ranges.len();
    let mut ridx: usize = 0;
    while ridx < rn
        invariant
            ridx <= rn,
            rn == ranges@.len(),
            forall|k: int|
                0 <= k < rn ==> min_addr <= (#[trigger] ranges@[k]).lower && ranges@[k].upper
                    <= max_addr,
            text_segment_entries@.len() == n,
            n == segs0.len(),
            forall|s: int|
                0 <= s < n ==> (#[trigger] text_segment_entries@[s]).instructions@
                    == segs0[s].instructions@,
            forall|s: int|
                0 <= s < n ==> ((#[trigger] text_segment_entries@[s]).start_address matches Some(a)
                    ==> a.wf()),
            forall|j: int|
                0 <= j < ridx && (#[trigger] ranges@[j]).data is Some ==> {
                    &&& ranges@[j].data.unwrap() < n
                    &&& text_start_set(text_segment_entries@[ranges@[j].data.unwrap() as int])
                    &&& text_segment_entries@[ranges@[j].data.unwrap() as int].start_address.unwrap().numeric.unwrap()
                        >= min_addr
                },
            spec_apply_text_starts(text_segment_entries@, ranges@.skip(ridx as int))
                == spec_apply_text_starts(segs0, ranges@),
        decreases rn - ridx,
    {
        let rg = ranges[ridx];
        let ghost before_segs = text_segment_entries@;
        proof {
            assert(ranges@.skip(ridx as int)[0] == ranges@[ridx as int]);
            assert(ranges@.skip(ridx as int).skip(1) =~= ranges@.skip(ridx as int + 1));
        }
        if let Some(sidx) = rg.get_data() {
            proof {
                assert(ranges@[ridx as int] == rg);
                assert(ranges@.contains(rg));
                assert(crate::machine::memory::data_from(positions@, rg.data));
                let k = choose|k: int|
                    0 <= k < positions@.len() && (#[trigger] positions@[k]).data == rg.data;
                assert(positions@[k].data == Some(k as usize));
            }
            let lo = rg.get_range().0;
            let mut seg = text_segment_entries.remove(sidx);
            let new_start = match seg.start_address.take() {
                Some(a) => Address::new(Some(lo), a.label),
                None => Address::from_numeric(lo),
            };
            seg.start_address = Some(new_start);
            text_segment_entries.insert(sidx, seg);
            proof {
                assert(forall|s: int|
                    0 <= s < n ==> (#[trigger] text_segment_entries@[s]).instructions@
                        == segs0[s].instructions@);
                assert(text_segment_entries@[sidx as int] == text_with_start(
                    before_segs[sidx as int],
                    rg.lower,
                ));
                assert(text_segment_entries@ =~= before_segs.update(
                    sidx as int,
                    text_with_start(before_segs[sidx as int], rg.lower),
                ));
            }
        }
        ridx += 1;
    }
    let ghost started = spec_apply_text_starts(segs0, ranges@);
    proof {
        assert(ranges@.skip(rn as int) =~= Seq::<MemRange>::empty());
        assert(text_segment_entries@ == started);
    }
    proof {
        assert forall|s: int| 0 <= s < n implies text_start_set(#[trigger] text_segment_entries@[s])
            && text_segment_entries@[s].start_address.unwrap().numeric.unwrap() >= min_addr by {
            assert(positions@[s].data == Some(s as usize));
            assert(crate::machine::memory::has_allocation(ranges@, Some(s as usize)));
            let m = choose|m: crate::machine::memory::MemRange|
                #![auto]
                ranges@.contains(m) && m.status
                    == crate::machine::memory::MemRangeStatus::Allocated && m.data == Some(
                    s as usize,
                );
            let j = choose|j: int| 0 <= j < ranges@.len() && ranges@[j] == m;
            assert(ranges@[j].data is Some);
            assert(text_start_set(text_segment_entries@[ranges@[j].data.unwrap() as int]));
        }
    }
    let mut aidx: usize = 0;
    proof {
        assert(started.skip(0) =~= started);
    }
    while aidx < n
        invariant
            aidx <= n,
            text_segment_entries@.len() == n,
            n == segs0.len(),
            n == started.len(),
            labels.wf(),
            lab0.submap_of(labels@),
            spec_assign_text_all(started.skip(aidx as int), max_addr, labels@)
                == spec_assign_text_all(started, max_addr, lab0),
            forall|s: int| aidx <= s < n ==> (#[trigger] text_segment_entries@[s]) == started[s],
            forall|s: int|
                aidx <= s < n ==> (#[trigger] text_segment_entries@[s]).instructions@
                    == segs0[s].instructions@,
            forall|s: int|
                aidx <= s < n ==> ((#[trigger] text_segment_entries@[s]).start_address matches Some(
                    a,
                ) && a.numeric matches Some(v) && v >= min_addr),
            forall|s: int|
                0 <= s < aidx ==> {
                    &&& text_segment_addressed(#[trigger] text_segment_entries@[s])
                    &&& text_segment_entries@[s].start_address == started[s].start_address
                    &&& text_segment_entries@[s].instructions@.len()
                        == segs0[s].instructions@.len()
                    &&& min_addr
                        <= text_segment_entries@[s].start_address.unwrap().numeric.unwrap()
                    &&& text_segment_entries@[s].start_address.unwrap().numeric.unwrap() + 4
                        * text_segment_entries@[s].instructions@.len() <= max_addr
                    &&& forall|i: int|
                        0 <= i < text_segment_entries@[s].instructions@.len() ==> (
                        #[trigger] text_segment_entries@[s].instructions@[i]).1
                            == segs0[s].instructions@[i].1
                },
            forall|s: int, i: int|
                0 <= s < aidx && 0 <= i < segs0[s].instructions@.len() ==> entry_labels_recorded(
                    (#[trigger] segs0[s].instructions@[i]).0,
                    (text_segment_entries@[s].start_address.unwrap().numeric.unwrap() + 4
                        * i) as u32,
                    labels@,
                ),
        decreases n - aidx,
    {
        let ghost lpre = labels@;
        let ghost seg_pre = text_segment_entries@[aidx as int];
        proof {
            assert(seg_pre == started[aidx as int]);
            assert(started.skip(aidx as int)[0] == started[aidx as int]);
            assert(started.skip(aidx as int).skip(1) =~= started.skip(aidx as int + 1));
            assert(min_addr <= seg_pre.start_address.unwrap().numeric.unwrap());
        }
        let mut seg = text_segment_entries.remove(aidx);
        let res = assign_text_segment_addresses(&mut seg, labels, max_addr);
        text_segment_entries.insert(aidx, seg);
        proof {
            lemma_submap_of_trans(lab0, lpre, labels@);
        }
        if let Err(e) = res {
            proof {
                assert(spec_assign_text_all(started, max_addr, lab0) is None);
            }
            return Err(e);
        }
        proof {
            let s0v = seg_pre.start_address.unwrap().numeric.unwrap();
            assert(spec_assign_text(seg_pre.instructions@, s0v, max_addr, lpre) == Some(labels@));
            lemma_assign_text_props(seg_pre.instructions@, s0v, max_addr, lpre);
            assert(seg_pre.instructions@ == segs0[aidx as int].instructions@);
            assert forall|s: int, i: int|
                0 <= s < aidx && 0 <= i < segs0[s].instructions@.len() implies entry_labels_recorded(
                (#[trigger] segs0[s].instructions@[i]).0,
                (text_segment_entries@[s].start_address.unwrap().numeric.unwrap() + 4 * i) as u32,
                labels@,
            ) by {
                lemma_recorded_mono(
                    segs0[s].instructions@[i].0,
                    (text_segment_entries@[s].start_address.unwrap().numeric.unwrap() + 4
                        * i) as u32,
                    lpre,
                    labels@,
                );
            }
        }
        aidx += 1;
    }
    proof {
        assert(started.skip(n as int) =~= Seq::<TextSegment>::empty());
        assert(Some(labels@) == spec_assign_text_all(started, max_addr, lab0));
        assert(spec_layout_text(segs0, min_addr, max_addr, lab0) == Some(labels@));
    }
    Ok(())
}

/// Lay the data segments out in `[min_addr, max_addr]` and run pass 1
/// over each.
#[verifier::loop_isolation(false)]
#[verifier::rlimit(100)]
#[verifier::spinoff_prover]
pub fn layout_data_segment(
    data_segment_entries: &mut Vec<DataSegment>,
    labels: &mut SymbolTable,
    min_addr: u32,
    max_addr: u32,
) -> (r: Result<(), ResolveError>)
    requires
        1 <= min_addr <= max_addr,
        max_addr - min_addr < u32::MAX,
        old(labels).wf(),
        forall|s: int|
            0 <= s < old(data_segment_entries).len() ==> data_seg_input_wf(
                #[trigger] old(data_segment_entries)@[s],
            ),
    ensures
        final(labels).wf(),
        old(labels)@.submap_of(final(labels)@),
        final(data_segment_entries).len() == old(data_segment_entries).len(),
        r is Ok ==> forall|s: int|
            0 <= s < final(data_segment_entries).len() ==> {
                &&& (#[trigger] final(data_segment_entries)@[s]).start_address matches Some(a)
                    && a.numeric matches Some(n) && n >= 1
                &&& final(data_segment_entries)@[s].data_entries@.len() == old(
                    data_segment_entries,
                )@[s].data_entries@.len()
            },
        r matches Err(e) ==> (e is Placement || e is DuplicateLabel || e is SegmentTooLarge),
        r is Ok ==> forall|s: int, i: int|
            0 <= s < old(data_segment_entries).len() && 0 <= i < old(
                data_segment_entries,
            )@[s].data_entries@.len() ==> entry_labels_recorded(
                entry_addr(#[trigger] old(data_segment_entries)@[s].data_entries@[i]),
                (final(data_segment_entries)@[s].start_address.unwrap().numeric.unwrap()
                    + crate::parser::parser::entries_size(
                    old(data_segment_entries)@[s].data_entries@.take(i),
                )) as u32,
                final(labels)@,
            ),
        r is Ok <==> spec_layout_data(
            old(data_segment_entries)@,
            min_addr,
            max_addr,
            old(labels)@,
        ) is Some,
        r is Ok ==> Some(final(labels)@) == spec_layout_data(
            old(data_segment_entries)@,
            min_addr,
            max_addr,
            old(labels)@,
        ),
        r is Ok ==> forall|s: int|
            0 <= s < final(data_segment_entries).len()
                ==> (#[trigger] final(data_segment_entries)@[s]).start_address
                == spec_apply_data_starts(
                old(data_segment_entries)@,
                spec_first_fit(
                    positions_of_data(old(data_segment_entries)@),
                    min_addr,
                    max_addr,
                ).unwrap(),
            )[s].start_address,
        r is Ok ==> forall|s: int, i: int|
            0 <= s < old(data_segment_entries).len() && 0 <= i < old(
                data_segment_entries,
            )@[s].data_entries@.len() ==> (#[trigger] final(data_segment_entries)@[s].data_entries@[i])
                == entry_with_addr(
                old(data_segment_entries)@[s].data_entries@[i],
                Some(
                    Address {
                        numeric: Some(
                            (final(data_segment_entries)@[s].start_address.unwrap().numeric.unwrap()
                                + crate::parser::parser::entries_size(
                                old(data_segment_entries)@[s].data_entries@.take(i),
                            )) as u32,
                        ),
                        label: None::<Vec<String>>,
                    },
                ),
            ),
        r is Ok ==> forall|s: int|
            0 <= s < final(data_segment_entries).len() && old(
                data_segment_entries,
            )@[s].data_entries@.len() > 0 ==> {
                let start = (#[trigger] final(data_segment_entries)@[s]).start_address.unwrap().numeric.unwrap();
                min_addr <= start && start + crate::parser::parser::entries_size(
                    old(data_segment_entries)@[s].data_entries@,
                ) <= max_addr
            },
{
    let ghost segs0 = data_segment_entries@;
    let ghost lab0 = labels@;
    let n = data_segment_entries.len();
    let mut positions: Vec<MemPosition> = Vec::new();
    let mut idx: usize = 0;
    while idx < n
        invariant
            idx <= n,
            positions@.len() == idx,
            data_segment_entries@ == segs0,
            forall|k: int| 0 <= k < idx ==> (#[trigger] positions@[k]).wf(),
            forall|k: int| 0 <= k < idx ==> (#[trigger] positions@[k]).data == Some(k as usize),
            positions@ == positions_of_data(segs0).take(idx as int),
        decreases n - idx,
    {
        let size = {
            let seg = &data_segment_entries[idx];
            seg.size()
        };
        let lower: Option<u32> = match &data_segment_entries[idx].start_address {
            Some(a) => a.numeric,
            None => None,
        };
        positions.push(MemPosition::new(lower, None, size as u32, Some(idx)));
        proof {
            assert(positions@ =~= positions_of_data(segs0).take(idx as int + 1));
        }
        idx += 1;
    }
    proof {
        assert(positions@ =~= positions_of_data(segs0));
    }
    let ranges = match Allocator::first_fit(&positions, min_addr, max_addr) {
        Ok(v) => v,
        Err(e) => {
            return Err(ResolveError::Placement(e));
        },
    };
    proof {
        crate::machine::memory::lemma_tiles_window(ranges@, min_addr, max_addr);
        assert(Some(ranges@) == spec_first_fit(positions_of_data(segs0), min_addr, max_addr));
        assert(spec_apply_data_starts(data_segment_entries@, ranges@.skip(0)) == spec_apply_data_starts(
            segs0,
            ranges@,
        )) by {
            assert(ranges@.skip(0) =~= ranges@);
        }
    }
    let rn = ranges.len();
    let mut ridx: usize = 0;
    while ridx < rn
        invariant
            ridx <= rn,
            rn == ranges@.len(),
            forall|k: int|
                0 <= k < rn ==> min_addr <= (#[trigger] ranges@[k]).lower && ranges@[k].upper
                    <= max_addr,
            data_segment_entries@.len() == n,
            n == segs0.len(),
            forall|s: int|
                0 <= s < n ==> (#[trigger] data_segment_entries@[s]).data_entries@
                    == segs0[s].data_entries@,
            forall|s: int|
                0 <= s < n ==> ((#[trigger] data_segment_entries@[s]).start_address matches Some(a)
                    ==> a.wf()),
            forall|j: int|
                0 <= j < ridx && (#[trigger] ranges@[j]).data is Some ==> {
                    &&& ranges@[j].data.unwrap() < n
                    &&& data_start_set(data_segment_entries@[ranges@[j].data.unwrap() as int])
                    &&& data_segment_entries@[ranges@[j].data.unwrap() as int].start_address.unwrap().numeric.unwrap()
                        >= min_addr
                },
            spec_apply_data_starts(data_segment_entries@, ranges@.skip(ridx as int))
                == spec_apply_data_starts(segs0, ranges@),
        decreases rn - ridx,
    {
        let rg = ranges[ridx];
        let ghost before_segs = data_segment_entries@;
        proof {
            assert(ranges@.skip(ridx as int)[0] == ranges@[ridx as int]);
            assert(ranges@.skip(ridx as int).skip(1) =~= ranges@.skip(ridx as int + 1));
        }
        if let Some(sidx) = rg.get_data() {
            proof {
                assert(ranges@[ridx as int] == rg);
                assert(ranges@.contains(rg));
                assert(crate::machine::memory::data_from(positions@, rg.data));
                let k = choose|k: int|
                    0 <= k < positions@.len() && (#[trigger] positions@[k]).data == rg.data;
                assert(positions@[k].data == Some(k as usize));
            }
            let lo = rg.get_range().0;
            let mut seg = data_segment_entries.remove(sidx);
            let new_start = match seg.start_address.take() {
                Some(a) => Address::new(Some(lo), a.label),
                None => Address::from_numeric(lo),
            };
            seg.start_address = Some(new_start);
            data_segment_entries.insert(sidx, seg);
            proof {
                assert(data_segment_entries@[sidx as int] == data_with_start(
                    before_segs[sidx as int],
                    rg.lower,
                ));
                assert(data_segment_entries@ =~= before_segs.update(
                    sidx as int,
                    data_with_start(before_segs[sidx as int], rg.lower),
                ));
            }
        }
        ridx += 1;
    }
    let ghost started = spec_apply_data_starts(segs0, ranges@);
    proof {
        assert(ranges@.skip(rn as int) =~= Seq::<MemRange>::empty());
        assert(data_segment_entries@ == started);
    }
    proof {
        assert forall|s: int| 0 <= s < n implies data_start_set(#[trigger] data_segment_entries@[s])
            && data_segment_entries@[s].start_address.unwrap().numeric.unwrap() >= min_addr by {
            assert(positions@[s].data == Some(s as usize));
            assert(crate::machine::memory::has_allocation(ranges@, Some(s as usize)));
            let m = choose|m: crate::machine::memory::MemRange|
                #![auto]
                ranges@.contains(m) && m.status
                    == crate::machine::memory::MemRangeStatus::Allocated && m.data == Some(
                    s as usize,
                );
            let j = choose|j: int| 0 <= j < ranges@.len() && ranges@[j] == m;
            assert(ranges@[j].data is Some);
            assert(data_start_set(data_segment_entries@[ranges@[j].data.unwrap() as int]));
        }
    }
    let mut aidx: usize = 0;
    proof {
        assert(started.skip(0) =~= started);
    }
    while aidx < n
        invariant
            aidx <= n,
            data_segment_entries@.len() == n,
            n == segs0.len(),
            labels.wf(),
            lab0.submap_of(labels@),
            n == started.len(),
            spec_assign_data_all(started.skip(aidx as int), max_addr, labels@)
                == spec_assign_data_all(started, max_addr, lab0),
            forall|s: int| aidx <= s < n ==> (#[trigger] data_segment_entries@[s]) == started[s],
            forall|s: int|
                aidx <= s < n ==> (#[trigger] data_segment_entries@[s]).data_entries@
                    == segs0[s].data_entries@,
            forall|s: int|
                aidx <= s < n ==> ((#[trigger] data_segment_entries@[s]).start_address matches Some(
                    a,
                ) && a.numeric matches Some(v) && v >= min_addr),
            forall|s: int|
                0 <= s < aidx ==> {
                    &&& (#[trigger] data_segment_entries@[s]).start_address matches Some(a)
                        && a.numeric matches Some(v) && v >= min_addr
                    &&& data_segment_entries@[s].start_address == started[s].start_address
                    &&& data_segment_entries@[s].data_entries@.len()
                        == segs0[s].data_entries@.len()
                    &&& (segs0[s].data_entries@.len() > 0
                        ==> data_segment_entries@[s].start_address.unwrap().numeric.unwrap()
                        + crate::parser::parser::entries_size(segs0[s].data_entries@) <= max_addr)
                },
            forall|s: int, i: int|
                0 <= s < aidx && 0 <= i < segs0[s].data_entries@.len() ==> (
                #[trigger] data_segment_entries@[s].data_entries@[i]) == entry_with_addr(
                    segs0[s].data_entries@[i],
                    Some(
                        Address {
                            numeric: Some(
                                (data_segment_entries@[s].start_address.unwrap().numeric.unwrap()
                                    + crate::parser::parser::entries_size(
                                    segs0[s].data_entries@.take(i),
                                )) as u32,
                            ),
                            label: None::<Vec<String>>,
                        },
                    ),
                ),
            forall|s: int, i: int|
                0 <= s < aidx && 0 <= i < segs0[s].data_entries@.len() ==> entry_labels_recorded(
                    entry_addr(#[trigger] segs0[s].data_entries@[i]),
                    (data_segment_entries@[s].start_address.unwrap().numeric.unwrap()
                        + crate::parser::parser::entries_size(
                        segs0[s].data_entries@.take(i),
                    )) as u32,
                    labels@,
                ),
        decreases n - aidx,
    {
        let ghost lpre = labels@;
        let ghost seg_pre = data_segment_entries@[aidx as int];
        proof {
            assert(seg_pre == started[aidx as int]);
            assert(started.skip(aidx as int)[0] == started[aidx as int]);
            assert(started.skip(aidx as int).skip(1) =~= started.skip(aidx as int + 1));
        }
        let mut seg = data_segment_entries.remove(aidx);
        let res = assign_data_segment_addresses(&mut seg, labels, max_addr);
        data_segment_entries.insert(aidx, seg);
        proof {
            lemma_submap_of_trans(lab0, lpre, labels@);
        }
        if let Err(e) = res {
            proof {
                assert(spec_assign_data_all(started, max_addr, lab0) is None);
            }
            return Err(e);
        }
        proof {
            let s0v = seg_pre.start_address.unwrap().numeric.unwrap();
            assert(spec_assign_data(seg_pre.data_entries@, s0v, max_addr, lpre) == Some(labels@));
            assert(seg_pre.data_entries@ == segs0[aidx as int].data_entries@);
            lemma_assign_data_props(seg_pre.data_entries@, s0v, max_addr, lpre);
            let m = segs0[aidx as int].data_entries@.len() as int;
            if m > 0 {
                crate::parser::parser::lemma_entries_size_unfold(
                    segs0[aidx as int].data_entries@,
                    m - 1,
                );
                assert(segs0[aidx as int].data_entries@.take(m) =~= segs0[aidx
                    as int].data_entries@);
                crate::parser::parser::lemma_entry_size_nonneg(
                    segs0[aidx as int].data_entries@[m - 1],
                );
            }
            assert forall|s: int, i: int|
                0 <= s < aidx && 0 <= i < segs0[s].data_entries@.len() implies entry_labels_recorded(
                entry_addr(#[trigger] segs0[s].data_entries@[i]),
                (data_segment_entries@[s].start_address.unwrap().numeric.unwrap()
                    + crate::parser::parser::entries_size(segs0[s].data_entries@.take(i))) as u32,
                labels@,
            ) by {
                lemma_recorded_mono(
                    entry_addr(segs0[s].data_entries@[i]),
                    (data_segment_entries@[s].start_address.unwrap().numeric.unwrap()
                        + crate::parser::parser::entries_size(
                        segs0[s].data_entries@.take(i),
                    )) as u32,
                    lpre,
                    labels@,
                );
            }
        }
        aidx += 1;
    }
    proof {
        assert(started.skip(n as int) =~= Seq::<DataSegment>::empty());
        assert(Some(labels@) == spec_assign_data_all(started, max_addr, lab0));
        assert(spec_layout_data(segs0, min_addr, max_addr, lab0) == Some(labels@));
    }
    Ok(())
}

/// An unresolved operand must actually name a label to look up.
pub open spec fn resolvable(inst: Inst) -> bool {
    match inst {
        Inst::ILabel(it) => it.label.label matches Some(v) && v.len() > 0,
        Inst::JLabel(jt) => jt.label.label matches Some(v) && v.len() > 0,
        _ => true,
    }
}

/// When pass 2 succeeds on an instruction: a resolved instruction always
/// passes through; an unresolved operand needs its first name in the
/// table, and the resulting value must fit the target field.
pub open spec fn inst_resolves(inst: Inst, inst_addr: u32, m: Map<Seq<char>, u32>) -> bool {
    match inst {
        Inst::ILabel(it) => {
            let name = it.label.label_views()[0];
            &&& m.contains_key(name)
            &&& (it.opcode.spec_needs_offset() ==> branch_fits(m[name], inst_addr))
            &&& (!it.opcode.spec_needs_offset() ==> m[name] <= 0xFFFF)
        },
        Inst::JLabel(jt) => {
            let name = jt.label.label_views()[0];
            m.contains_key(name) && jump_fits(m[name], inst_addr)
        },
        _ => true,
    }
}

/// Pass 2 on one instruction: rewrite a label-carrying operand into its
/// final bit-field immediate.  A branch gets the PC-relative word
/// offset, an absolute I-type operand the label's value itself, and a
/// jump the wider word offset.  Resolved instructions pass through
/// untouched; the terminal state is `Resolved` and there is no path
/// back.
pub fn resolve_instruction(inst: Inst, inst_addr: u32, labels: &SymbolTable) -> (r: Result<
    Inst,
    ResolveError,
>)
    requires
        labels.wf(),
        resolvable(inst),
        inst.wf(),
    ensures
        r is Ok <==> inst_resolves(inst, inst_addr, labels@),
        r matches Err(e) ==> (e is UnresolvedLabel || e is FieldOverflow),
        inst.is_resolved() ==> r == Ok::<Inst, ResolveError>(inst),
        r matches Ok(i) ==> i.is_resolved() && i.wf(),
        inst matches Inst::ILabel(it) ==> {
            let name = it.label.label_views()[0];
            &&& (!labels@.contains_key(name) ==> (r matches Err(e) && e matches
                ResolveError::UnresolvedLabel(s) && s@ == name))
            &&& (labels@.contains_key(name) && it.opcode.spec_needs_offset() && branch_fits(
                labels@[name],
                inst_addr,
            ) ==> r == Ok::<Inst, ResolveError>(
                Inst::IImm(
                    ITypeImm {
                        opcode: it.opcode,
                        rs: it.rs,
                        rt: it.rt,
                        imm: branch_imm(labels@[name], inst_addr),
                    },
                ),
            ))
            &&& (labels@.contains_key(name) && it.opcode.spec_needs_offset() && !branch_fits(
                labels@[name],
                inst_addr,
            ) ==> (r matches Err(e) && e matches ResolveError::FieldOverflow {
                label_addr,
                inst_addr: ia,
            } && label_addr == labels@[name] && ia == inst_addr))
            &&& (labels@.contains_key(name) && !it.opcode.spec_needs_offset() && labels@[name]
                <= 0xFFFF ==> r == Ok::<Inst, ResolveError>(
                Inst::IImm(
                    ITypeImm {
                        opcode: it.opcode,
                        rs: it.rs,
                        rt: it.rt,
                        imm: labels@[name] as u16,
                    },
                ),
            ))
            &&& (labels@.contains_key(name) && !it.opcode.spec_needs_offset() && labels@[name]
                > 0xFFFF ==> (r matches Err(e) && e matches ResolveError::FieldOverflow {
                label_addr,
                inst_addr: ia,
            } && label_addr == labels@[name] && ia == inst_addr))
        },
        inst matches Inst::JLabel(jt) ==> {
            let name = jt.label.label_views()[0];
            &&& (!labels@.contains_key(name) ==> (r matches Err(e) && e matches
                ResolveError::UnresolvedLabel(s) && s@ == name))
            &&& (labels@.contains_key(name) && jump_fits(labels@[name], inst_addr) ==> r == Ok::<
                Inst,
                ResolveError,
            >(Inst::JImm(JTypeImm { opcode: jt.opcode, imm: jump_imm(labels@[name], inst_addr) })))
            &&& (labels@.contains_key(name) && !jump_fits(labels@[name], inst_addr) ==> (r matches
                Err(e) && e matches ResolveError::FieldOverflow { label_addr, inst_addr: ia }
                && label_addr == labels@[name] && ia == inst_addr))
        },
{
    match inst {
        Inst::ILabel(it) => {
            let name = match &it.label.label {
                Some(v) => &v[0],
                None => {
                    return vstd::pervasive::unreached();
                },
            };
            let la = match labels.get(name.as_str()) {
                Some(v) => v,
                None => {
                    return Err(ResolveError::UnresolvedLabel(name.clone()));
                },
            };
            if it.opcode.needs_offset() {
                let off = match calculate_offset(la, inst_addr) {
                    Ok(o) => o,
                    Err(e) => {
                        return Err(e);
                    },
                };
                if off < -0x8000 || off > 0x7FFF {
                    return Err(ResolveError::FieldOverflow { label_addr: la, inst_addr });
                }
                let imm: u16 = if off >= 0 {
                    off as u16
                } else {
                    (off + 0x10000) as u16
                };
                Ok(Inst::IImm(ITypeImm::new(it.opcode, it.rs, it.rt, imm)))
            } else {
                if la > 0xFFFF {
                    return Err(ResolveError::FieldOverflow { label_addr: la, inst_addr });
                }
                Ok(Inst::IImm(ITypeImm::new(it.opcode, it.rs, it.rt, la as u16)))
            }
        },
        Inst::JLabel(jt) => {
            let name = match &jt.label.label {
                Some(v) => &v[0],
                None => {
                    return vstd::pervasive::unreached();
                },
            };
            let la = match labels.get(name.as_str()) {
                Some(v) => v,
                None => {
                    return Err(ResolveError::UnresolvedLabel(name.clone()));
                },
            };
            let off = match calculate_offset(la, inst_addr) {
                Ok(o) => o,
                Err(e) => {
                    return Err(e);
                },
            };
            if off < -0x200_0000 || off > 0x1FF_FFFF {
                return Err(ResolveError::FieldOverflow { label_addr: la, inst_addr });
            }
            let imm: u32 = if off >= 0 {
                off as u32
            } else {
                (off + 0x400_0000) as u32
            };
            Ok(Inst::JImm(JTypeImm::new(jt.opcode, imm)))
        },
        other => Ok(other),
    }
}

/// Pass 2 over whole text segment lists: rewrite every label-carrying
/// operand from the completed symbol table.  Pass-1-assigned addresses
/// are never touched.
#[verifier::loop_isolation(false)]
pub fn resolve_operands(
    text_segment_entries: &mut Vec<TextSegment>,
    labels: &SymbolTable,
) -> (r: Result<(), ResolveError>)
    requires
        labels.wf(),
        forall|s: int|
            0 <= s < old(text_segment_entries).len() ==> text_segment_addressed(
                #[trigger] old(text_segment_entries)@[s],
            ),
        forall|s: int, i: int|
            0 <= s < old(text_segment_entries).len() && 0 <= i < old(
                text_segment_entries,
            )@[s].instructions.len() ==> resolvable(
                (#[trigger] old(text_segment_entries)@[s].instructions@[i]).1,
            ) && old(text_segment_entries)@[s].instructions@[i].1.wf(),
    ensures
        final(text_segment_entries).len() == old(text_segment_entries).len(),
        r matches Err(e) ==> (e is UnresolvedLabel || e is FieldOverflow),
        r is Ok <==> forall|s: int, i: int|
            0 <= s < old(text_segment_entries).len() && 0 <= i < old(
                text_segment_entries,
            )@[s].instructions@.len() ==> inst_resolves(
                (#[trigger] old(text_segment_entries)@[s].instructions@[i]).1,
                old(text_segment_entries)@[s].instructions@[i].0.unwrap().numeric.unwrap(),
                labels@,
            ),
        r is Ok ==> forall|s: int|
            0 <= s < final(text_segment_entries).len() ==> {
                &&& text_segment_addressed(#[trigger] final(text_segment_entries)@[s])
                &&& text_segment_resolved(final(text_segment_entries)@[s])
                &&& final(text_segment_entries)@[s].instructions@.len() == old(
                    text_segment_entries,
                )@[s].instructions@.len()
                &&& final(text_segment_entries)@[s].start_address == old(
                    text_segment_entries,
                )@[s].start_address
            },
{
    let n = text_segment_entries.len();
    let ghost segs0 = text_segment_entries@;
    let mut sidx: usize = 0;
    while sidx < n
        invariant
            sidx <= n,
            n == segs0.len(),
            text_segment_entries@.len() == n,
            forall|s: int|
                sidx <= s < n ==> (#[trigger] text_segment_entries@[s]) == segs0[s],
            forall|s: int|
                0 <= s < sidx ==> {
                    &&& text_segment_addressed(#[trigger] text_segment_entries@[s])
                    &&& text_segment_resolved(text_segment_entries@[s])
                    &&& text_segment_entries@[s].instructions@.len()
                        == segs0[s].instructions@.len()
                    &&& text_segment_entries@[s].start_address == segs0[s].start_address
                },
            forall|s: int, i: int|
                0 <= s < sidx && 0 <= i < segs0[s].instructions@.len() ==> inst_resolves(
                    (#[trigger] segs0[s].instructions@[i]).1,
                    segs0[s].instructions@[i].0.unwrap().numeric.unwrap(),
                    labels@,
                ),
        decreases n - sidx,
    {
        let mut seg = text_segment_entries.remove(sidx);
        let res = resolve_segment_operands(&mut seg, labels);
        text_segment_entries.insert(sidx, seg);
        if let Err(e) = res {
            proof {
                let bad = choose|i: int|
                    !(0 <= i < segs0[sidx as int].instructions@.len() ==> inst_resolves(
                        segs0[sidx as int].instructions@[i].1,
                        segs0[sidx as int].instructions@[i].0.unwrap().numeric.unwrap(),
                        labels@,
                    ));
                assert(!inst_resolves(
                    segs0[sidx as int].instructions@[bad].1,
                    segs0[sidx as int].instructions@[bad].0.unwrap().numeric.unwrap(),
                    labels@,
                ));
            }
            return Err(e);
        }
        sidx += 1;
    }
    Ok(())
}

/// Pass 2 over one text segment.
#[verifier::loop_isolation(false)]
pub fn resolve_segment_operands(seg: &mut TextSegment, labels: &SymbolTable) -> (r: Result<
    (),
    ResolveError,
>)
    requires
        labels.wf(),
        text_segment_addressed(*old(seg)),
        forall|i: int|
            0 <= i < old(seg).instructions.len() ==> resolvable(
                (#[trigger] old(seg).instructions@[i]).1,
            ) && old(seg).instructions@[i].1.wf(),
    ensures
        final(seg).start_address == old(seg).start_address,
        r matches Err(e) ==> (e is UnresolvedLabel || e is FieldOverflow),
        r is Ok <==> forall|i: int|
            0 <= i < old(seg).instructions@.len() ==> inst_resolves(
                (#[trigger] old(seg).instructions@[i]).1,
                old(seg).instructions@[i].0.unwrap().numeric.unwrap(),
                labels@,
            ),
        r is Ok ==> {
            &&& text_segment_addressed(*final(seg))
            &&& text_segment_resolved(*final(seg))
            &&& final(seg).instructions@.len() == old(seg).instructions@.len()
        },
{
    let ghost oi = seg.instructions@;
    let ghost start0 = seg.start_address;
    let mut rest: Vec<(Option<Address>, Inst)> = Vec::new();
    core::mem::swap(&mut seg.instructions, &mut rest);
    let m = rest.len();
    let mut i: usize = 0;
    while i < m
        invariant
            i <= m,
            m == oi.len(),
            rest@ == oi.skip(i as int),
            seg.start_address == start0,
            seg.instructions@.len() == i,
            forall|j: int|
                0 <= j < i ==> (#[trigger] seg.instructions@[j]).0 == oi[j].0
                    && seg.instructions@[j].1.is_resolved() && seg.instructions@[j].1.wf(),
            forall|j: int|
                0 <= j < i ==> inst_resolves(
                    (#[trigger] oi[j]).1,
                    oi[j].0.unwrap().numeric.unwrap(),
                    labels@,
                ),
        decreases m - i,
    {
        let ghost entry = oi[i as int];
        let (a_opt, inst) = rest.remove(0);
        proof {
            assert((a_opt, inst) == entry);
            assert(oi.skip(i as int).skip(1) =~= oi.skip(i as int + 1));
        }
        let inst_addr: u32 = match &a_opt {
            Some(ad) => match ad.numeric {
                Some(v) => v,
                None => {
                    return vstd::pervasive::unreached();
                },
            },
            None => {
                return vstd::pervasive::unreached();
            },
        };
        let new_inst = match resolve_instruction(inst, inst_addr, labels) {
            Ok(ni) => ni,
            Err(e) => {
                proof {
                    assert(!inst_resolves(oi[i as int].1, oi[i as int].0.unwrap().numeric.unwrap(), labels@));
                }
                return Err(e);
            },
        };
        seg.instructions.push((a_opt, new_inst));
        i += 1;
    }
    proof {
        assert(oi.skip(m as int) =~= Seq::<(Option<Address>, Inst)>::empty());
    }
    Ok(())
}

/// The four layout stages in order, threading one table: user data,
/// kernel data, user text, kernel text, each in its own window.
pub open spec fn spec_program_table(
    text: Seq<TextSegment>,
    ktext: Seq<TextSegment>,
    data: Seq<DataSegment>,
    kdata: Seq<DataSegment>,
    m0: Map<Seq<char>, u32>,
) -> Option<Map<Seq<char>, u32>> {
    match spec_layout_data(
        data,
        crate::machine::memory::STATIC_DATA_START,
        crate::machine::memory::STACK_START,
        m0,
    ) {
        None => None,
        Some(m1) => match spec_layout_data(
            kdata,
            crate::machine::memory::KERNEL_DATA_END,
            crate::machine::memory::KERNEL_DATA_START,
            m1,
        ) {
            None => None,
            Some(m2) => match spec_layout_text(
                text,
                crate::machine::memory::TEXT_START,
                crate::machine::memory::TEXT_END,
                m2,
            ) {
                None => None,
                Some(m3) => spec_layout_text(
                    ktext,
                    crate::machine::memory::KERNEL_TEXT_END,
                    crate::machine::memory::KERNEL_TEXT_START,
                    m3,
                ),
            },
        },
    }
}

/// A text category with the allocator's starts written in.
pub open spec fn spec_started_text(segs: Seq<TextSegment>, min: u32, max: u32) -> Seq<
    TextSegment,
> {
    spec_apply_text_starts(segs, spec_first_fit(positions_of_text(segs), min, max).unwrap())
}

/// Every operand of every instruction resolves against the table, at
/// the address pass 1 gives it: its started segment's start plus four
/// bytes per preceding instruction.
pub open spec fn text_operands_resolve(
    orig: Seq<TextSegment>,
    started: Seq<TextSegment>,
    m: Map<Seq<char>, u32>,
) -> bool {
    forall|s: int, i: int|
        0 <= s < orig.len() && 0 <= i < orig[s].instructions@.len() ==> inst_resolves(
            (#[trigger] orig[s].instructions@[i]).1,
            (started[s].start_address.unwrap().numeric.unwrap() + 4 * i) as u32,
            m,
        )
}

/// A segment-for-segment expansion of a text category: starts are
/// preserved and each instruction list expands per `expands_to`.
pub open spec fn expansion_of(orig: Seq<TextSegment>, ex: Seq<TextSegment>) -> bool {
    &&& ex.len() == orig.len()
    &&& forall|s: int|
        0 <= s < orig.len() ==> (#[trigger] ex[s]).start_address == orig[s].start_address
            && crate::assembler::assembler::expands_to(
            orig[s].instructions@,
            ex[s].instructions@,
        )
}

/// When the whole resolution pipeline succeeds: every layout stage
/// succeeds, and every text and kernel-text operand resolves against
/// the completed table.
pub open spec fn spec_program_resolves(
    text: Seq<TextSegment>,
    ktext: Seq<TextSegment>,
    data: Seq<DataSegment>,
    kdata: Seq<DataSegment>,
    m0: Map<Seq<char>, u32>,
) -> bool {
    &&& spec_program_table(text, ktext, data, kdata, m0) is Some
    &&& text_operands_resolve(
        text,
        spec_started_text(
            text,
            crate::machine::memory::TEXT_START,
            crate::machine::memory::TEXT_END,
        ),
        spec_program_table(text, ktext, data, kdata, m0).unwrap(),
    )
    &&& text_operands_resolve(
        ktext,
        spec_started_text(
            ktext,
            crate::machine::memory::KERNEL_TEXT_END,
            crate::machine::memory::KERNEL_TEXT_START,
        ),
        spec_program_table(text, ktext, data, kdata, m0).unwrap(),
    )
}

/// Resolve the whole program: lay out and address the data segments,
/// then the text segments, each category within its own window of the
/// address space, and finally rewrite every text operand from the
/// completed symbol table.  Pass 1 of every category finishes before
/// any pass 2 runs, since an operand may reference a label defined in
/// another category.
#[verifier::rlimit(100)]
#[verifier::spinoff_prover]
pub fn assign_addresses(parsed: &mut Parsed, labels: &mut SymbolTable) -> (r: Result<
    (),
    ResolveError,
>)
    requires
        old(labels).wf(),
        forall|s: int|
            0 <= s < old(parsed).data_segment.len() ==> data_seg_input_wf(
                #[trigger] old(parsed).data_segment@[s],
            ),
        forall|s: int|
            0 <= s < old(parsed).kdata_segment.len() ==> data_seg_input_wf(
                #[trigger] old(parsed).kdata_segment@[s],
            ),
        forall|s: int|
            0 <= s < old(parsed).text_segment.len() ==> text_seg_input_wf(
                #[trigger] old(parsed).text_segment@[s],
            ),
        forall|s: int|
            0 <= s < old(parsed).ktext_segment.len() ==> text_seg_input_wf(
                #[trigger] old(parsed).ktext_segment@[s],
            ),
        forall|s: int, i: int|
            0 <= s < old(parsed).text_segment.len() && 0 <= i < old(
                parsed,
            ).text_segment@[s].instructions.len() ==> resolvable(
                (#[trigger] old(parsed).text_segment@[s].instructions@[i]).1,
            ) && old(parsed).text_segment@[s].instructions@[i].1.wf(),
        forall|s: int, i: int|
            0 <= s < old(parsed).ktext_segment.len() && 0 <= i < old(
                parsed,
            ).ktext_segment@[s].instructions.len() ==> resolvable(
                (#[trigger] old(parsed).ktext_segment@[s].instructions@[i]).1,
            ) && old(parsed).ktext_segment@[s].instructions@[i].1.wf(),
    ensures
        final(labels).wf(),
        old(labels)@.submap_of(final(labels)@),
        final(parsed).text_segment@.len() == old(parsed).text_segment@.len(),
        final(parsed).ktext_segment@.len() == old(parsed).ktext_segment@.len(),
        final(parsed).data_segment@.len() == old(parsed).data_segment@.len(),
        final(parsed).kdata_segment@.len() == old(parsed).kdata_segment@.len(),
        r is Ok ==> forall|s: int|
            0 <= s < final(parsed).text_segment.len() ==> text_segment_addressed(
                #[trigger] final(parsed).text_segment@[s],
            ) && text_segment_resolved(final(parsed).text_segment@[s]),
        r is Ok ==> forall|s: int|
            0 <= s < final(parsed).ktext_segment.len() ==> text_segment_addressed(
                #[trigger] final(parsed).ktext_segment@[s],
            ) && text_segment_resolved(final(parsed).ktext_segment@[s]),
        r is Ok ==> forall|s: int|
            0 <= s < final(parsed).data_segment.len()
                ==> ((#[trigger] final(parsed).data_segment@[s]).start_address matches Some(a)
                && a.numeric is Some),
        r is Ok ==> forall|s: int|
            0 <= s < final(parsed).kdata_segment.len()
                ==> ((#[trigger] final(parsed).kdata_segment@[s]).start_address matches Some(a)
                && a.numeric is Some),
        r is Ok ==> forall|s: int, i: int|
            0 <= s < old(parsed).text_segment.len() && 0 <= i < old(
                parsed,
            ).text_segment@[s].instructions@.len() ==> entry_labels_recorded(
                (#[trigger] old(parsed).text_segment@[s].instructions@[i]).0,
                (final(parsed).text_segment@[s].start_address.unwrap().numeric.unwrap() + 4
                    * i) as u32,
                final(labels)@,
            ),
        r is Ok ==> forall|s: int, i: int|
            0 <= s < old(parsed).ktext_segment.len() && 0 <= i < old(
                parsed,
            ).ktext_segment@[s].instructions@.len() ==> entry_labels_recorded(
                (#[trigger] old(parsed).ktext_segment@[s].instructions@[i]).0,
                (final(parsed).ktext_segment@[s].start_address.unwrap().numeric.unwrap() + 4
                    * i) as u32,
                final(labels)@,
            ),
        r is Ok ==> forall|s: int, i: int|
            0 <= s < old(parsed).data_segment.len() && 0 <= i < old(
                parsed,
            ).data_segment@[s].data_entries@.len() ==> entry_labels_recorded(
                entry_addr(#[trigger] old(parsed).data_segment@[s].data_entries@[i]),
                (final(parsed).data_segment@[s].start_address.unwrap().numeric.unwrap()
                    + crate::parser::parser::entries_size(
                    old(parsed).data_segment@[s].data_entries@.take(i),
                )) as u32,
                final(labels)@,
            ),
        r is Ok ==> forall|s: int, i: int|
            0 <= s < old(parsed).kdata_segment.len() && 0 <= i < old(
                parsed,
            ).kdata_segment@[s].data_entries@.len() ==> entry_labels_recorded(
                entry_addr(#[trigger] old(parsed).kdata_segment@[s].data_entries@[i]),
                (final(parsed).kdata_segment@[s].start_address.unwrap().numeric.unwrap()
                    + crate::parser::parser::entries_size(
                    old(parsed).kdata_segment@[s].data_entries@.take(i),
                )) as u32,
                final(labels)@,
            ),
        r is Ok <==> spec_program_resolves(old(parsed).text_segment@, old(parsed).ktext_segment@, old(parsed).data_segment@, old(parsed).kdata_segment@, old(labels)@),
        r is Ok ==> Some(final(labels)@) == spec_program_table(old(parsed).text_segment@, old(parsed).ktext_segment@, old(parsed).data_segment@, old(parsed).kdata_segment@, old(labels)@),
        r is Ok ==> forall|s: int|
            0 <= s < final(parsed).text_segment.len() ==> {
                let start = (#[trigger] final(parsed).text_segment@[s]).start_address.unwrap().numeric.unwrap();
                crate::machine::memory::TEXT_START <= start && start + 4 * final(parsed).text_segment@[s].instructions@.len()
                    <= crate::machine::memory::TEXT_END
            },
        r is Ok ==> forall|s: int|
            0 <= s < final(parsed).ktext_segment.len() ==> {
                let start = (#[trigger] final(parsed).ktext_segment@[s]).start_address.unwrap().numeric.unwrap();
                crate::machine::memory::KERNEL_TEXT_END <= start && start + 4 * final(parsed).ktext_segment@[s].instructions@.len()
                    <= crate::machine::memory::KERNEL_TEXT_START
            },
        r is Ok ==> forall|s: int|
            0 <= s < final(parsed).data_segment.len() && old(
                parsed,
            ).data_segment@[s].data_entries@.len() > 0 ==> {
                let start = (#[trigger] final(parsed).data_segment@[s]).start_address.unwrap().numeric.unwrap();
                crate::machine::memory::STATIC_DATA_START <= start && start
                    + crate::parser::parser::entries_size(old(parsed).data_segment@[s].data_entries@)
                    <= crate::machine::memory::STACK_START
            },
        r is Ok ==> forall|s: int|
            0 <= s < final(parsed).kdata_segment.len() && old(
                parsed,
            ).kdata_segment@[s].data_entries@.len() > 0 ==> {
                let start = (#[trigger] final(parsed).kdata_segment@[s]).start_address.unwrap().numeric.unwrap();
                crate::machine::memory::KERNEL_DATA_END <= start && start
                    + crate::parser::parser::entries_size(old(parsed).kdata_segment@[s].data_entries@)
                    <= crate::machine::memory::KERNEL_DATA_START
            },
        r is Ok ==> forall|s: int, i: int|
            0 <= s < old(parsed).data_segment.len() && 0 <= i < old(
                parsed,
            ).data_segment@[s].data_entries@.len() ==> (#[trigger] final(parsed).data_segment@[s].data_entries@[i])
                == entry_with_addr(
                old(parsed).data_segment@[s].data_entries@[i],
                Some(
                    Address {
                        numeric: Some(
                            (final(parsed).data_segment@[s].start_address.unwrap().numeric.unwrap()
                                + crate::parser::parser::entries_size(
                                old(parsed).data_segment@[s].data_entries@.take(i),
                            )) as u32,
                        ),
                        label: None::<Vec<String>>,
                    },
                ),
            ),
        r is Ok ==> forall|s: int, i: int|
            0 <= s < old(parsed).kdata_segment.len() && 0 <= i < old(
                parsed,
            ).kdata_segment@[s].data_entries@.len() ==> (#[trigger] final(parsed).kdata_segment@[s].data_entries@[i])
                == entry_with_addr(
                old(parsed).kdata_segment@[s].data_entries@[i],
                Some(
                    Address {
                        numeric: Some(
                            (final(parsed).kdata_segment@[s].start_address.unwrap().numeric.unwrap()
                                + crate::parser::parser::entries_size(
                                old(parsed).kdata_segment@[s].data_entries@.take(i),
                            )) as u32,
                        ),
                        label: None::<Vec<String>>,
                    },
                ),
            ),
{
    let ghost l0 = labels@;
    // STATIC_DATA has no defined upper bound of its own; allocation is
    // greedy below the stack window.
    let r1 = layout_data_segment(
        &mut parsed.data_segment,
        labels,
        crate::machine::memory::STATIC_DATA_START,
        crate::machine::memory::STACK_START,
    );
    if let Err(e) = r1 {
        proof {
            assert(spec_program_table(old(parsed).text_segment@, old(parsed).ktext_segment@, old(parsed).data_segment@, old(parsed).kdata_segment@, l0) is None);
        }
        return Err(e);
    }
    proof {
        lemma_submap_of_trans(l0, l0, labels@);
    }
    let ghost l1 = labels@;
    let r2 = layout_data_segment(
        &mut parsed.kdata_segment,
        labels,
        crate::machine::memory::KERNEL_DATA_END,
        crate::machine::memory::KERNEL_DATA_START,
    );
    proof {
        lemma_submap_of_trans(l0, l1, labels@);
    }
    if let Err(e) = r2 {
        proof {
            assert(spec_program_table(old(parsed).text_segment@, old(parsed).ktext_segment@, old(parsed).data_segment@, old(parsed).kdata_segment@, l0) is None);
        }
        return Err(e);
    }
    let ghost l2 = labels@;
    let r3 = layout_text_segment(
        &mut parsed.text_segment,
        labels,
        crate::machine::memory::TEXT_START,
        crate::machine::memory::TEXT_END,
    );
    proof {
        lemma_submap_of_trans(l0, l2, labels@);
    }
    if let Err(e) = r3 {
        proof {
            assert(spec_program_table(old(parsed).text_segment@, old(parsed).ktext_segment@, old(parsed).data_segment@, old(parsed).kdata_segment@, l0) is None);
        }
        return Err(e);
    }
    let ghost l3 = labels@;
    let r4 = layout_text_segment(
        &mut parsed.ktext_segment,
        labels,
        crate::machine::memory::KERNEL_TEXT_END,
        crate::machine::memory::KERNEL_TEXT_START,
    );
    proof {
        lemma_submap_of_trans(l0, l3, labels@);
    }
    if let Err(e) = r4 {
        proof {
            assert(spec_program_table(old(parsed).text_segment@, old(parsed).ktext_segment@, old(parsed).data_segment@, old(parsed).kdata_segment@, l0) is None);
        }
        return Err(e);
    }
    let ghost l4 = labels@;
    let ghost t3 = parsed.text_segment@;
    let ghost t4k = parsed.ktext_segment@;
    let ghost startedt = spec_started_text(
        old(parsed).text_segment@,
        crate::machine::memory::TEXT_START,
        crate::machine::memory::TEXT_END,
    );
    let ghost startedk = spec_started_text(
        old(parsed).ktext_segment@,
        crate::machine::memory::KERNEL_TEXT_END,
        crate::machine::memory::KERNEL_TEXT_START,
    );
    proof {
        assert(spec_program_table(old(parsed).text_segment@, old(parsed).ktext_segment@, old(parsed).data_segment@, old(parsed).kdata_segment@, l0) == Some(l4));
        assert forall|s: int, i: int|
            0 <= s < t3.len() && 0 <= i < old(parsed).text_segment@[s].instructions@.len() implies (
        inst_resolves(
            (#[trigger] t3[s].instructions@[i]).1,
            t3[s].instructions@[i].0.unwrap().numeric.unwrap(),
            l4,
        ) == inst_resolves(
            old(parsed).text_segment@[s].instructions@[i].1,
            (startedt[s].start_address.unwrap().numeric.unwrap() + 4 * i) as u32,
            l4,
        )) by {
            assert(t3[s].instructions@[i].1 == old(parsed).text_segment@[s].instructions@[i].1);
            assert(t3[s].start_address == startedt[s].start_address);
            assert(text_segment_addressed(t3[s]));
            assert(t3[s].instructions@[i].0 == Some(
                Address {
                    numeric: Some(
                        (t3[s].start_address.unwrap().numeric.unwrap() + 4 * i) as u32,
                    ),
                    label: None::<Vec<String>>,
                },
            ));
        }
        assert forall|s: int, i: int|
            0 <= s < t4k.len() && 0 <= i < old(parsed).ktext_segment@[s].instructions@.len() implies (
        inst_resolves(
            (#[trigger] t4k[s].instructions@[i]).1,
            t4k[s].instructions@[i].0.unwrap().numeric.unwrap(),
            l4,
        ) == inst_resolves(
            old(parsed).ktext_segment@[s].instructions@[i].1,
            (startedk[s].start_address.unwrap().numeric.unwrap() + 4 * i) as u32,
            l4,
        )) by {
            assert(t4k[s].instructions@[i].1 == old(parsed).ktext_segment@[s].instructions@[i].1);
            assert(t4k[s].start_address == startedk[s].start_address);
            assert(text_segment_addressed(t4k[s]));
            assert(t4k[s].instructions@[i].0 == Some(
                Address {
                    numeric: Some(
                        (t4k[s].start_address.unwrap().numeric.unwrap() + 4 * i) as u32,
                    ),
                    label: None::<Vec<String>>,
                },
            ));
        }
    }
    let r5 = resolve_operands(&mut parsed.text_segment, labels);
    if let Err(e) = r5 {
        proof {
            assert(!text_operands_resolve(old(parsed).text_segment@, startedt, l4)) by {
                if text_operands_resolve(old(parsed).text_segment@, startedt, l4) {
                    assert forall|s: int, i: int|
                        0 <= s < t3.len() && 0 <= i < t3[s].instructions@.len() implies inst_resolves(
                        (#[trigger] t3[s].instructions@[i]).1,
                        t3[s].instructions@[i].0.unwrap().numeric.unwrap(),
                        l4,
                    ) by {
                        assert(inst_resolves(
                            old(parsed).text_segment@[s].instructions@[i].1,
                            (startedt[s].start_address.unwrap().numeric.unwrap() + 4 * i) as u32,
                            l4,
                        ));
                    }
                    assert(false);
                }
            }
        }
        return Err(e);
    }
    let r6 = resolve_operands(&mut parsed.ktext_segment, labels);
    if let Err(e) = r6 {
        proof {
            assert(!text_operands_resolve(old(parsed).ktext_segment@, startedk, l4)) by {
                if text_operands_resolve(old(parsed).ktext_segment@, startedk, l4) {
                    assert forall|s: int, i: int|
                        0 <= s < t4k.len() && 0 <= i < t4k[s].instructions@.len() implies inst_resolves(
                        (#[trigger] t4k[s].instructions@[i]).1,
                        t4k[s].instructions@[i].0.unwrap().numeric.unwrap(),
                        l4,
                    ) by {
                        assert(inst_resolves(
                            old(parsed).ktext_segment@[s].instructions@[i].1,
                            (startedk[s].start_address.unwrap().numeric.unwrap() + 4 * i) as u32,
                            l4,
                        ));
                    }
                    assert(false);
                }
            }
        }
        return Err(e);
    }
    proof {
        assert(labels@ == l4);
        assert forall|s: int, i: int|
            0 <= s < old(parsed).text_segment@.len() && 0 <= i < old(
                parsed,
            ).text_segment@[s].instructions@.len() implies inst_resolves(
            (#[trigger] old(parsed).text_segment@[s].instructions@[i]).1,
            (startedt[s].start_address.unwrap().numeric.unwrap() + 4 * i) as u32,
            l4,
        ) by {
            assert(inst_resolves(
                t3[s].instructions@[i].1,
                t3[s].instructions@[i].0.unwrap().numeric.unwrap(),
                l4,
            ));
        }
        assert forall|s: int, i: int|
            0 <= s < old(parsed).ktext_segment@.len() && 0 <= i < old(
                parsed,
            ).ktext_segment@[s].instructions@.len() implies inst_resolves(
            (#[trigger] old(parsed).ktext_segment@[s].instructions@[i]).1,
            (startedk[s].start_address.unwrap().numeric.unwrap() + 4 * i) as u32,
            l4,
        ) by {
            assert(inst_resolves(
                t4k[s].instructions@[i].1,
                t4k[s].instructions@[i].0.unwrap().numeric.unwrap(),
                l4,
            ));
        }
        assert(text_operands_resolve(old(parsed).text_segment@, startedt, l4));
        assert(text_operands_resolve(old(parsed).ktext_segment@, startedk, l4));
        assert(spec_program_resolves(old(parsed).text_segment@, old(parsed).ktext_segment@, old(parsed).data_segment@, old(parsed).kdata_segment@, l0));
        lemma_submap_of_trans(l0, l1, l2);
        lemma_submap_of_trans(l0, l2, l3);
        lemma_submap_of_trans(l0, l3, l4);
        assert forall|s: int, i: int|
            0 <= s < old(parsed).text_segment.len() && 0 <= i < old(
                parsed,
            ).text_segment@[s].instructions@.len() implies entry_labels_recorded(
            (#[trigger] old(parsed).text_segment@[s].instructions@[i]).0,
            (parsed.text_segment@[s].start_address.unwrap().numeric.unwrap() + 4 * i) as u32,
            labels@,
        ) by {
            lemma_recorded_mono(
                old(parsed).text_segment@[s].instructions@[i].0,
                (parsed.text_segment@[s].start_address.unwrap().numeric.unwrap() + 4 * i) as u32,
                l3,
                l4,
            );
        }
        assert forall|s: int, i: int|
            0 <= s < old(parsed).data_segment.len() && 0 <= i < old(
                parsed,
            ).data_segment@[s].data_entries@.len() implies entry_labels_recorded(
            entry_addr(#[trigger] old(parsed).data_segment@[s].data_entries@[i]),
            (parsed.data_segment@[s].start_address.unwrap().numeric.unwrap()
                + crate::parser::parser::entries_size(
                old(parsed).data_segment@[s].data_entries@.take(i),
            )) as u32,
            labels@,
        ) by {
            lemma_submap_of_trans(l1, l2, l3);
            lemma_submap_of_trans(l1, l3, l4);
            lemma_recorded_mono(
                entry_addr(old(parsed).data_segment@[s].data_entries@[i]),
                (parsed.data_segment@[s].start_address.unwrap().numeric.unwrap()
                    + crate::parser::parser::entries_size(
                    old(parsed).data_segment@[s].data_entries@.take(i),
                )) as u32,
                l1,
                l4,
            );
        }
        assert forall|s: int, i: int|
            0 <= s < old(parsed).kdata_segment.len() && 0 <= i < old(
                parsed,
            ).kdata_segment@[s].data_entries@.len() implies entry_labels_recorded(
            entry_addr(#[trigger] old(parsed).kdata_segment@[s].data_entries@[i]),
            (parsed.kdata_segment@[s].start_address.unwrap().numeric.unwrap()
                + crate::parser::parser::entries_size(
                old(parsed).kdata_segment@[s].data_entries@.take(i),
            )) as u32,
            labels@,
        ) by {
            lemma_submap_of_trans(l2, l3, l4);
            lemma_recorded_mono(
                entry_addr(old(parsed).kdata_segment@[s].data_entries@[i]),
                (parsed.kdata_segment@[s].start_address.unwrap().numeric.unwrap()
                    + crate::parser::parser::entries_size(
                    old(parsed).kdata_segment@[s].data_entries@.take(i),
                )) as u32,
                l2,
                l4,
            );
        }
    }
    Ok(())
}

} // verus!
