//! The symbol table and pseudo-instruction expansion.
//!
//! The table maps each label name to its resolved 32-bit address.
//! Insertion is single-assignment: the resolver treats a second binding
//! of the same name as a fatal redefinition.

use vstd::prelude::*;
use vstd::string::*;

use crate::assembler::resolver::{
    assign_addresses,
    data_seg_input_wf,
    expansion_of,
    resolvable,
    spec_program_resolves,
    spec_program_table,
    text_seg_input_wf,
    text_segment_addressed,
    text_segment_resolved,
    ResolveError,
};
use crate::instructions::itype::{IInst, ITypeImm, ITypeLabel};
use crate::instructions::Inst;
use crate::machine::address::Address;
use crate::machine::register::Reg;
use crate::parser::parser::{Parsed, TextSegment};

verus! {

/// Compare two strings by their character sequences.
pub fn str_eq(a: &str, b: &str) -> (r: bool)
    ensures
        r == (a@ == b@),
{
    let la = a.unicode_len();
    let lb = b.unicode_len();
    if la != lb {
        return false;
    }
    let mut i: usize = 0;
    while i < la
        invariant
            i <= la,
            la == a@.len(),
            la == b@.len(),
            forall|j: int| 0 <= j < i ==> a@[j] == b@[j],
        decreases la - i,
    {
        if a.get_char(i) != b.get_char(i) {
            return false;
        }
        i += 1;
    }
    proof {
        assert(a@ =~= b@);
    }
    true
}

/// The mathematical content of a run of (name, address) entries: later
/// entries overwrite earlier ones, though a well-formed table never has
/// two entries of one name.
pub open spec fn map_of(s: Seq<(String, u32)>) -> Map<Seq<char>, u32>
    decreases s.len(),
{
    if s.len() == 0 {
        Map::empty()
    } else {
        map_of(s.drop_last()).insert(s.last().0@, s.last().1)
    }
}

/// A name is in the table exactly when some entry carries it.
pub proof fn lemma_map_of_domain(s: Seq<(String, u32)>)
    ensures
        forall|k: Seq<char>|
            #[trigger] map_of(s).contains_key(k) <==> (exists|i: int|
                0 <= i < s.len() && (#[trigger] s[i]).0@ == k),
    decreases s.len(),
{
    if s.len() > 0 {
        lemma_map_of_domain(s.drop_last());
        assert(forall|i: int| 0 <= i < s.len() - 1 ==> #[trigger] s.drop_last()[i] == s[i]);
        assert forall|k: Seq<char>| #[trigger] map_of(s).contains_key(k) implies (exists|i: int|
            0 <= i < s.len() && (#[trigger] s[i]).0@ == k) by {
            if k == s.last().0@ {
                assert(s[s.len() - 1].0@ == k);
            } else {
                assert(map_of(s.drop_last()).contains_key(k));
            }
        }
        assert forall|k: Seq<char>|
            (exists|i: int| 0 <= i < s.len() && (#[trigger] s[i]).0@ == k) implies #[trigger] map_of(
            s,
        ).contains_key(k) by {
            let i = choose|i: int| 0 <= i < s.len() && (#[trigger] s[i]).0@ == k;
            if i < s.len() - 1 {
                assert(s.drop_last()[i] == s[i]);
                assert(map_of(s.drop_last()).contains_key(k));
            }
        }
    }
}

/// With no later entry of the same name, an entry's value is the one the
/// table holds for its name.
pub proof fn lemma_map_of_value(s: Seq<(String, u32)>, i: int)
    requires
        0 <= i < s.len(),
        forall|j: int| i < j < s.len() ==> (#[trigger] s[j]).0@ != s[i].0@,
    ensures
        map_of(s).contains_key(s[i].0@),
        map_of(s)[s[i].0@] == s[i].1,
    decreases s.len(),
{
    if i == s.len() - 1 {
    } else {
        assert(forall|j: int| 0 <= j < s.len() - 1 ==> #[trigger] s.drop_last()[j] == s[j]);
        lemma_map_of_value(s.drop_last(), i);
        assert(s.last().0@ != s[i].0@);
    }
}

/// A mapping from label name to its resolved address, with
/// single-assignment insertion.
#[derive(Debug)]
pub struct SymbolTable {
    pub entries: Vec<(String, u32)>,
}

impl View for SymbolTable {
    type V = Map<Seq<char>, u32>;

    open spec fn view(&self) -> Map<Seq<char>, u32> {
        map_of(self.entries@)
    }
}

impl SymbolTable {
    /// No name appears twice.
    pub open spec fn wf(self) -> bool {
        forall|i: int, j: int|
            0 <= i < j < self.entries.len() ==> (#[trigger] self.entries[i]).0@ != (
            #[trigger] self.entries[j]).0@
    }

    pub fn new() -> (r: SymbolTable)
        ensures
            r@ == Map::<Seq<char>, u32>::empty(),
            r.wf(),
            r.entries@.len() == 0,
    {
        SymbolTable { entries: Vec::new() }
    }

    pub fn contains_key(&self, name: &str) -> (r: bool)
        ensures
            r == self@.contains_key(name@),
    {
        let n = self.entries.len();
        let mut i: usize = 0;
        while i < n
            invariant
                i <= n,
                n == self.entries@.len(),
                forall|j: int| 0 <= j < i ==> (#[trigger] self.entries@[j]).0@ != name@,
            decreases n - i,
        {
            if str_eq(self.entries[i].0.as_str(), name) {
                proof {
                    lemma_map_of_domain(self.entries@);
                }
                return true;
            }
            i += 1;
        }
        proof {
            lemma_map_of_domain(self.entries@);
        }
        false
    }

    pub fn get(&self, name: &str) -> (r: Option<u32>)
        requires
            self.wf(),
        ensures
            r == if self@.contains_key(name@) {
                Some(self@[name@])
            } else {
                None::<u32>
            },
    {
        let n = self.entries.len();
        let mut i: usize = 0;
        while i < n
            invariant
                i <= n,
                n == self.entries@.len(),
                self.wf(),
                forall|j: int| 0 <= j < i ==> (#[trigger] self.entries@[j]).0@ != name@,
            decreases n - i,
        {
            if str_eq(self.entries[i].0.as_str(), name) {
                proof {
                    lemma_map_of_value(self.entries@, i as int);
                }
                return Some(self.entries[i].1);
            }
            i += 1;
        }
        proof {
            lemma_map_of_domain(self.entries@);
        }
        None
    }

    /// Bind a new name.  The caller has already ruled out a redefinition.
    pub fn insert(&mut self, name: String, value: u32)
        requires
            old(self).wf(),
            !old(self)@.contains_key(name@),
        ensures
            final(self).wf(),
            final(self)@ == old(self)@.insert(name@, value),
    {
        proof {
            lemma_map_of_domain(self.entries@);
        }
        self.entries.push((name, value));
        proof {
            assert(self.entries@.drop_last() =~= old(self).entries@);
        }
    }

    /// The number of names bound.
    pub fn len(&self) -> (r: usize)
        requires
            self.wf(),
        ensures
            r == self.entries@.len(),
    {
        self.entries.len()
    }
}

/// The synthesized sub-symbol names for a label: `name@hi` holds the
/// address's upper half, `name@lo` its lower half.
pub open spec fn hi_name(l: Seq<char>) -> Seq<char> {
    l + seq!['@', 'h', 'i']
}

pub open spec fn lo_name(l: Seq<char>) -> Seq<char> {
    l + seq!['@', 'l', 'o']
}

/// Append the `@hi` suffix to a name.
pub fn make_hi_name(l: &String) -> (r: String)
    ensures
        r@ == hi_name(l@),
{
    let mut s = l.clone();
    s.append("@hi");
    proof {
        reveal_strlit("@hi");
        assert(("@hi")@ =~= seq!['@', 'h', 'i']);
    }
    s
}

/// Append the `@lo` suffix to a name.
pub fn make_lo_name(l: &String) -> (r: String)
    ensures
        r@ == lo_name(l@),
{
    let mut s = l.clone();
    s.append("@lo");
    proof {
        reveal_strlit("@lo");
        assert(("@lo")@ =~= seq!['@', 'l', 'o']);
    }
    s
}

/// Expand `la`/`li` of a label into `lui reg, label@hi` followed by
/// `ori reg, reg, label@lo`.  The last of the source labels names the
/// target; `reg` is the instruction's `rt` operand.
pub fn expand_li_la_label(rs: Reg, rt: Reg, label: Address) -> (r: (ITypeLabel, ITypeLabel))
    requires
        label.label matches Some(v) && v.len() > 0,
    ensures
        r.0.opcode == IInst::lui && r.0.rs == rs && r.0.rt == rt,
        r.0.label.numeric is None,
        r.0.label.label_views() == seq![hi_name(label.label_views().last())],
        r.1.opcode == IInst::ori && r.1.rs == rt && r.1.rt == rt,
        r.1.label.numeric is None,
        r.1.label.label_views() == seq![lo_name(label.label_views().last())],
{
    let mut v = label.label.unwrap();
    let base = v.pop().unwrap();
    let hi = make_hi_name(&base);
    let lo = make_lo_name(&base);
    let lui = ITypeLabel::new(IInst::lui, rs, rt, Address::from_label(hi));
    let ori = ITypeLabel::new(IInst::ori, rt, rt, Address::from_label(lo));
    proof {
        assert(lui.label.label_views() =~= seq![hi_name(label.label_views().last())]);
        assert(ori.label.label_views() =~= seq![lo_name(label.label_views().last())]);
    }
    (lui, ori)
}

/// Expand `la`/`li` of a literal value into `lui` of its upper half and
/// `ori` of its lower half.
pub fn expand_li_la_imm(rs: Reg, rt: Reg, imm: u32) -> (r: (ITypeImm, ITypeImm))
    ensures
        r.0 == (ITypeImm { opcode: IInst::lui, rs, rt, imm: (imm >> 16) as u16 }),
        r.1 == (ITypeImm { opcode: IInst::ori, rs: rt, rt, imm: (imm % 0x10000) as u16 }),
{
    proof {
        assert(imm >> 16 < 0x10000) by (bit_vector);
    }
    let lui = ITypeImm::new(IInst::lui, rs, rt, (imm >> 16) as u16);
    let ori = ITypeImm::new(IInst::ori, rt, rt, (imm % 0x10000) as u16);
    (lui, ori)
}

/// Whether an instruction is a `la`/`li` pseudo-instruction still
/// carrying a label.
pub open spec fn is_li_la_label(inst: Inst) -> bool {
    inst matches Inst::ILabel(it) && (it.opcode is la || it.opcode is li)
}

/// Whether an instruction is a `la`/`li` pseudo-instruction with a
/// literal operand.
pub open spec fn is_li_la_imm(inst: Inst) -> bool {
    inst matches Inst::IImm(it) && (it.opcode is la || it.opcode is li)
}

/// How many physical instructions an entry expands to.
pub open spec fn expansion_len(inst: Inst) -> int {
    if is_li_la_label(inst) || is_li_la_imm(inst) {
        2
    } else {
        1
    }
}

/// The exact shape of one entry's expansion.  A `la`/`li` becomes `lui`
/// then `ori`; the source entry's address stays on the `lui` alone, so
/// references to the pseudo-instruction resolve to its start.
pub open spec fn one_expansion(e: (Option<Address>, Inst), d: Seq<(Option<Address>, Inst)>) -> bool {
    match e.1 {
        Inst::ILabel(it) => if it.opcode is la || it.opcode is li {
            &&& d.len() == 2
            &&& d[0].0 == e.0
            &&& d[0].1 matches Inst::ILabel(l1) && l1.opcode == IInst::lui && l1.rs == it.rs
                && l1.rt == it.rt && l1.label.numeric is None && l1.label.label_views() == seq![
                hi_name(it.label.label_views().last()),
            ]
            &&& d[1].0 is None
            &&& d[1].1 matches Inst::ILabel(l2) && l2.opcode == IInst::ori && l2.rs == it.rt
                && l2.rt == it.rt && l2.label.numeric is None && l2.label.label_views() == seq![
                lo_name(it.label.label_views().last()),
            ]
        } else {
            d.len() == 1 && d[0] == e
        },
        Inst::IImm(it) => if it.opcode is la || it.opcode is li {
            &&& d.len() == 2
            &&& d[0].0 == e.0
            &&& d[0].1 == Inst::IImm(
                ITypeImm {
                    opcode: IInst::lui,
                    rs: it.rs,
                    rt: it.rt,
                    imm: ((it.imm as u32) >> 16) as u16,
                },
            )
            &&& d[1].0 is None
            &&& d[1].1 == Inst::IImm(
                ITypeImm {
                    opcode: IInst::ori,
                    rs: it.rt,
                    rt: it.rt,
                    imm: ((it.imm as u32) % 0x10000) as u16,
                },
            )
        } else {
            d.len() == 1 && d[0] == e
        },
        _ => d.len() == 1 && d[0] == e,
    }
}

/// The whole expansion relation between a source instruction list and
/// its expanded form.
pub open spec fn expands_to(
    src: Seq<(Option<Address>, Inst)>,
    dst: Seq<(Option<Address>, Inst)>,
) -> bool
    decreases src.len(),
{
    if src.len() == 0 {
        dst.len() == 0
    } else {
        let k = expansion_len(src[0].1);
        &&& dst.len() >= k
        &&& one_expansion(src[0], dst.take(k))
        &&& expands_to(src.skip(1), dst.skip(k))
    }
}

/// A `la`/`li` entry still carrying a label must actually have a name
/// to expand.
pub open spec fn expandable(inst: Inst) -> bool {
    is_li_la_label(inst) ==> (inst matches Inst::ILabel(it) && it.label.label matches Some(v)
        && v.len() > 0)
}

pub open spec fn seg_expandable(seg: TextSegment) -> bool {
    forall|i: int| 0 <= i < seg.instructions.len() ==> expandable((#[trigger] seg.instructions[i]).1)
}

/// Expand every `la`/`li` pseudo-instruction in the given text segments
/// into its two physical instructions, before any address is assigned,
/// so that each physical instruction receives its own address.  The
/// source entry's labels stay on the first of the pair.
pub fn expand_pseudo(text_segments: Vec<TextSegment>) -> (r: Vec<TextSegment>)
    requires
        forall|s: int| 0 <= s < text_segments.len() ==> seg_expandable(#[trigger] text_segments[s]),
    ensures
        r.len() == text_segments.len(),
        forall|s: int|
            0 <= s < r.len() ==> (#[trigger] r[s]).start_address
                == text_segments[s].start_address && expands_to(
                text_segments[s].instructions@,
                r[s].instructions@,
            ),
{
    let ghost orig = text_segments@;
    let mut src = text_segments;
    let mut out: Vec<TextSegment> = Vec::new();
    while src.len() > 0
        invariant
            out@.len() + src@.len() == orig.len(),
            src@ == orig.skip(out@.len() as int),
            forall|s: int| 0 <= s < orig.len() ==> seg_expandable(#[trigger] orig[s]),
            forall|s: int|
                0 <= s < out@.len() ==> (#[trigger] out@[s]).start_address
                    == orig[s].start_address && expands_to(
                    orig[s].instructions@,
                    out@[s].instructions@,
                ),
        decreases src@.len(),
    {
        let ghost done = out@.len() as int;
        let seg = src.remove(0);
        proof {
            assert(seg == orig[done]);
            assert(orig.skip(done).skip(1) =~= orig.skip(done + 1));
        }
        let mut insts = seg.instructions;
        let start = seg.start_address;
        let ghost oi = insts@;
        let n0 = insts.len();
        proof {
            assert(oi.len() == n0);
        }
        let mut new_insts: Vec<(Option<Address>, Inst)> = Vec::new();
        let mut i: usize = 0;
        proof {
            assert(oi.take(0) =~= Seq::<(Option<Address>, Inst)>::empty());
        }
        while insts.len() > 0
            invariant
                oi.len() <= usize::MAX,
                i + insts@.len() == oi.len(),
                insts@ == oi.skip(i as int),
                expands_to(oi.take(i as int), new_insts@),
                forall|k: int| 0 <= k < oi.len() ==> expandable((#[trigger] oi[k]).1),
            decreases insts@.len(),
        {
            let ghost prev = new_insts@;
            let ghost e = oi[i as int];
            let (addr, inst) = insts.remove(0);
            proof {
                assert((addr, inst) == e);
                assert(oi.skip(i as int).skip(1) =~= oi.skip(i as int + 1));
            }
            match inst {
                Inst::ILabel(it) => {
                    match it.opcode {
                        IInst::la | IInst::li => {
                            let (lui, ori) = expand_li_la_label(it.rs, it.rt, it.label);
                            new_insts.push((addr, Inst::ILabel(lui)));
                            new_insts.push((None, Inst::ILabel(ori)));
                        },
                        _ => {
                            new_insts.push((addr, Inst::ILabel(it)));
                        },
                    }
                },
                Inst::IImm(it) => {
                    match it.opcode {
                        IInst::la | IInst::li => {
                            let (lui, ori) = expand_li_la_imm(it.rs, it.rt, it.imm as u32);
                            new_insts.push((addr, Inst::IImm(lui)));
                            new_insts.push((None, Inst::IImm(ori)));
                        },
                        _ => {
                            new_insts.push((addr, Inst::IImm(it)));
                        },
                    }
                },
                other => {
                    new_insts.push((addr, other));
                },
            }
            proof {
                let d = new_insts@.skip(prev.len() as int);
                assert(new_insts@ =~= prev + d);
                assert(one_expansion(e, d));
                lemma_expands_push(oi.take(i as int), prev, e, d);
                assert(oi.take(i as int).push(e) =~= oi.take(i as int + 1));
            }
            i += 1;
        }
        proof {
            assert(oi.take(oi.len() as int) =~= oi);
        }
        out.push(TextSegment { instructions: new_insts, start_address: start });
        proof {
            assert(orig[done].instructions@ == oi);
        }
    }
    out
}

proof fn lemma_expands_push(
    a: Seq<(Option<Address>, Inst)>,
    b: Seq<(Option<Address>, Inst)>,
    e: (Option<Address>, Inst),
    d: Seq<(Option<Address>, Inst)>,
)
    requires
        expands_to(a, b),
        one_expansion(e, d),
        d.len() == expansion_len(e.1),
    ensures
        expands_to(a.push(e), b + d),
    decreases a.len(),
{
    if a.len() == 0 {
        assert(b.len() == 0);
        assert(a.push(e)[0] == e);
        let k = expansion_len(e.1);
        assert((b + d).take(k) =~= d);
        assert((b + d).skip(k) =~= Seq::<(Option<Address>, Inst)>::empty());
        assert(a.push(e).skip(1) =~= Seq::<(Option<Address>, Inst)>::empty());
        assert(expands_to(
            Seq::<(Option<Address>, Inst)>::empty(),
            Seq::<(Option<Address>, Inst)>::empty(),
        ));
    } else {
        let k = expansion_len(a[0].1);
        assert(a.push(e)[0] == a[0]);
        assert(a.push(e).skip(1) =~= a.skip(1).push(e));
        assert((b + d).take(k) =~= b.take(k));
        assert((b + d).skip(k) =~= b.skip(k) + d);
        lemma_expands_push(a.skip(1), b.skip(k), e, d);
    }
}

/// What pass 1 and pass 2 need of each entry: a name behind every
/// unresolved operand, field-level well-formedness, and a name behind
/// every attached address.
pub open spec fn entry_props(e: (Option<Address>, Inst)) -> bool {
    &&& resolvable(e.1)
    &&& e.1.wf()
    &&& (e.0 matches Some(ad) ==> ad.label matches Some(v) && v.len() > 0)
}

/// Expansion at most doubles a segment and preserves what the resolver
/// needs of each entry.
pub proof fn lemma_expands_props(
    src: Seq<(Option<Address>, Inst)>,
    dst: Seq<(Option<Address>, Inst)>,
)
    requires
        expands_to(src, dst),
        forall|i: int| 0 <= i < src.len() ==> entry_props(#[trigger] src[i]),
    ensures
        src.len() <= dst.len() <= 2 * src.len(),
        forall|i: int| 0 <= i < dst.len() ==> entry_props(#[trigger] dst[i]),
    decreases src.len(),
{
    if src.len() == 0 {
    } else {
        let k = expansion_len(src[0].1);
        let t = src.skip(1);
        assert(forall|i: int| 0 <= i < t.len() ==> #[trigger] t[i] == src[i + 1]);
        lemma_expands_props(t, dst.skip(k));
        assert forall|i: int| 0 <= i < dst.len() implies entry_props(#[trigger] dst[i]) by {
            if i >= k {
                assert(dst[i] == dst.skip(k)[i - k]);
            } else {
                assert(dst.take(k)[i] == dst[i]);
                assert(one_expansion(src[0], dst.take(k)));
                if is_li_la_label(src[0].1) {
                    let d0 = dst.take(k)[0];
                    let d1 = dst.take(k)[1];
                    match d0.1 {
                        Inst::ILabel(l1) => {
                            assert(l1.label.label_views().len() == 1);
                            if l1.label.label is None {
                                assert(l1.label.label_views().len() == 0);
                            }
                        },
                        _ => {},
                    }
                    match d1.1 {
                        Inst::ILabel(l2) => {
                            assert(l2.label.label_views().len() == 1);
                            if l2.label.label is None {
                                assert(l2.label.label_views().len() == 0);
                            }
                        },
                        _ => {},
                    }
                }
            }
        }
    }
}

/// Everything `assemble` needs of a text segment as parsed: room for
/// the expansion to double it, and resolver-ready entries.
pub open spec fn text_seg_source_wf(seg: TextSegment) -> bool {
    &&& 1 <= seg.instructions.len()
    &&& seg.instructions.len() * 8 <= u32::MAX
    &&& (seg.start_address matches Some(a) ==> a.wf())
    &&& seg_expandable(seg)
    &&& forall|i: int| 0 <= i < seg.instructions.len() ==> entry_props(#[trigger] seg.instructions@[i])
}

/// The outcome marker of a completed assembly run.
pub struct Assembled {}

/// Assemble a parsed program: expand the `la`/`li` pseudo-instructions,
/// lay every segment category out in its own address window, assign
/// concrete addresses, and resolve every operand.  Returns the mutated
/// program together with the symbol table built along the way.
pub fn assemble(parsed: Parsed) -> (r: Result<(Parsed, SymbolTable), ResolveError>)
    requires
        forall|s: int|
            0 <= s < parsed.text_segment.len() ==> text_seg_source_wf(
                #[trigger] parsed.text_segment@[s],
            ),
        forall|s: int|
            0 <= s < parsed.ktext_segment.len() ==> text_seg_source_wf(
                #[trigger] parsed.ktext_segment@[s],
            ),
        forall|s: int|
            0 <= s < parsed.data_segment.len() ==> data_seg_input_wf(
                #[trigger] parsed.data_segment@[s],
            ),
        forall|s: int|
            0 <= s < parsed.kdata_segment.len() ==> data_seg_input_wf(
                #[trigger] parsed.kdata_segment@[s],
            ),
    ensures
        r matches Ok(pr) ==> {
            &&& pr.1.wf()
            &&& pr.0.text_segment@.len() == parsed.text_segment@.len()
            &&& pr.0.ktext_segment@.len() == parsed.ktext_segment@.len()
            &&& pr.0.data_segment@.len() == parsed.data_segment@.len()
            &&& pr.0.kdata_segment@.len() == parsed.kdata_segment@.len()
            &&& forall|s: int|
                0 <= s < pr.0.text_segment.len() ==> text_segment_addressed(
                    #[trigger] pr.0.text_segment@[s],
                ) && text_segment_resolved(pr.0.text_segment@[s])
            &&& forall|s: int|
                0 <= s < pr.0.ktext_segment.len() ==> text_segment_addressed(
                    #[trigger] pr.0.ktext_segment@[s],
                ) && text_segment_resolved(pr.0.ktext_segment@[s])
            &&& exists|te: Seq<TextSegment>, kte: Seq<TextSegment>|
                {
                    &&& #[trigger] expansion_of(parsed.text_segment@, te)
                    &&& #[trigger] expansion_of(parsed.ktext_segment@, kte)
                    &&& spec_program_resolves(
                        te,
                        kte,
                        parsed.data_segment@,
                        parsed.kdata_segment@,
                        Map::<Seq<char>, u32>::empty(),
                    )
                    &&& Some(pr.1@) == spec_program_table(
                        te,
                        kte,
                        parsed.data_segment@,
                        parsed.kdata_segment@,
                        Map::<Seq<char>, u32>::empty(),
                    )
                }
        },
        r is Err ==> exists|te: Seq<TextSegment>, kte: Seq<TextSegment>|
            {
                &&& #[trigger] expansion_of(parsed.text_segment@, te)
                &&& #[trigger] expansion_of(parsed.ktext_segment@, kte)
                &&& !spec_program_resolves(
                    te,
                    kte,
                    parsed.data_segment@,
                    parsed.kdata_segment@,
                    Map::<Seq<char>, u32>::empty(),
                )
            },
{
    let Parsed { text_segment, ktext_segment, data_segment, kdata_segment } = parsed;
    let ghost text0 = text_segment@;
    let ghost ktext0 = ktext_segment@;
    let text_segment = expand_pseudo(text_segment);
    let ktext_segment = expand_pseudo(ktext_segment);
    proof {
        assert forall|s: int| 0 <= s < text_segment@.len() implies text_seg_input_wf(
            #[trigger] text_segment@[s],
        ) && (forall|i: int|
            0 <= i < text_segment@[s].instructions.len() ==> resolvable(
                (#[trigger] text_segment@[s].instructions@[i]).1,
            ) && text_segment@[s].instructions@[i].1.wf()) by {
            lemma_expands_props(text0[s].instructions@, text_segment@[s].instructions@);
        }
        assert forall|s: int| 0 <= s < ktext_segment@.len() implies text_seg_input_wf(
            #[trigger] ktext_segment@[s],
        ) && (forall|i: int|
            0 <= i < ktext_segment@[s].instructions.len() ==> resolvable(
                (#[trigger] ktext_segment@[s].instructions@[i]).1,
            ) && ktext_segment@[s].instructions@[i].1.wf()) by {
            lemma_expands_props(ktext0[s].instructions@, ktext_segment@[s].instructions@);
        }
    }
    let mut p = Parsed { text_segment, ktext_segment, data_segment, kdata_segment };
    let ghost tev = p.text_segment@;
    let ghost ktev = p.ktext_segment@;
    let ghost datav = p.data_segment@;
    let ghost kdatav = p.kdata_segment@;
    let mut labels = SymbolTable::new();
    let res = assign_addresses(&mut p, &mut labels);
    proof {
        assert(expansion_of(parsed.text_segment@, tev));
        assert(expansion_of(parsed.ktext_segment@, ktev));
    }
    match res {
        Ok(()) => {
            proof {
                assert(spec_program_resolves(
                    tev,
                    ktev,
                    parsed.data_segment@,
                    parsed.kdata_segment@,
                    Map::<Seq<char>, u32>::empty(),
                ));
                assert(Some(labels@) == spec_program_table(
                    tev,
                    ktev,
                    parsed.data_segment@,
                    parsed.kdata_segment@,
                    Map::<Seq<char>, u32>::empty(),
                ));
            }
            Ok((p, labels))
        },
        Err(e) => {
            proof {
                assert(!spec_program_resolves(
                    tev,
                    ktev,
                    parsed.data_segment@,
                    parsed.kdata_segment@,
                    Map::<Seq<char>, u32>::empty(),
                ));
            }
            Err(e)
        },
    }
}

} // verus!
