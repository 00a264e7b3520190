//! The heap registry and the mark-and-sweep collector.
//!
//! Every allocation registers one block: its address, its byte size, and a
//! `GcTargetInfo` stamping the object kind.  A collection cycle traces the
//! graph from the VM roots into a cycle-local trace set and then frees every
//! block the trace did not reach, subtracting the freed bytes of arrays,
//! instances and classes from the byte counter (the facade blocks are
//! accounted as freeing zero bytes, so the counter may drift upward but is
//! never driven below zero).

use vstd::prelude::*;
use vstd::seq_lib::*;
use vstd::set_lib::lemma_len_subset;
use vstd::string::StrSliceExecFns;

verus! {

use crate::Word;
use crate::heap::{HeapObject, VM, edges_of, frame_root, obj_wf, push_edges, root_words};

broadcast use vstd::set::group_set_axioms;

/// Collections run only when the tracked byte count exceeds this threshold.
pub const GC_THRESHOLD_BYTES: usize = 10 * 1024 * 1024;

/// The mark bit of a registry or trace-set entry.
#[derive(Debug, Clone, Copy, PartialEq, Eq, Structural)]
pub enum GcState {
    Marked,
    Unmarked,
}

/// The kind of a registered block, stamped at allocation time.  A kind
/// outside the closed set is recorded as `Unknown`; the registry invariant
/// keeps `Unknown` out of every block the tracer can meet.
#[derive(Debug, Clone, Copy, PartialEq, Eq, Structural)]
pub enum GcTargetType {
    Array,
    Object,
    Class,
    ClassHeap,
    ObjectHeap,
    RuntimeEnvironment,
    Unknown,
}

/// What the registry records of one block: its kind and its mark bit.
#[derive(Debug, Clone, Copy, PartialEq, Eq, Structural)]
pub struct GcTargetInfo {
    pub ty: GcTargetType,
    pub state: GcState,
}

/// One registered block: its address, the byte size it was registered with,
/// its kind record, and its payload.
pub struct HeapEntry {
    pub addr: Word,
    pub size: usize,
    pub info: GcTargetInfo,
    pub obj: HeapObject,
}

/// `suffix` is a suffix of `s`.
pub open spec fn is_suffix_of(suffix: Seq<char>, s: Seq<char>) -> bool {
    suffix.len() <= s.len() && s.subrange(s.len() - suffix.len(), s.len() as int) == suffix
}

/// The kind inferred from the spelling of a host-language type name, by the
/// suffix cascade the allocator applies.
pub open spec fn kind_for_name(name: Seq<char>) -> GcTargetType {
    if is_suffix_of("Array"@, name) {
        GcTargetType::Array
    } else if is_suffix_of("ObjectBody"@, name) {
        GcTargetType::Object
    } else if is_suffix_of("Class"@, name) {
        GcTargetType::Class
    } else if is_suffix_of("ClassHeap"@, name) {
        GcTargetType::ClassHeap
    } else if is_suffix_of("ObjectHeap"@, name) {
        GcTargetType::ObjectHeap
    } else if is_suffix_of("RuntimeEnvironment"@, name) {
        GcTargetType::RuntimeEnvironment
    } else {
        GcTargetType::Unknown
    }
}

/// The kind that matches a payload variant.
pub open spec fn kind_of(obj: HeapObject) -> GcTargetType {
    match obj {
        HeapObject::Instance { .. } => GcTargetType::Object,
        HeapObject::ArrayObj { .. } => GcTargetType::Array,
        HeapObject::ClassObj { .. } => GcTargetType::Class,
        HeapObject::ClassHeapObj { .. } => GcTargetType::ClassHeap,
        HeapObject::ObjectHeapObj => GcTargetType::ObjectHeap,
        HeapObject::RuntimeEnvironmentObj { .. } => GcTargetType::RuntimeEnvironment,
    }
}

/// Whether `s` ends with `suffix`, by characters.
fn str_ends_with(s: &str, suffix: &str) -> (r: bool)
    ensures
        r == is_suffix_of(suffix@, s@),
{
    let n = s.unicode_len();
    let m = suffix.unicode_len();
    if m > n {
        return false;
    }
    let mut i: usize = 0;
    while i < m
        invariant
            n == s@.len(),
            m == suffix@.len(),
            m <= n,
            i <= m,
            forall|j: int| 0 <= j < i ==> s@[n - m + j] == suffix@[j],
        decreases m - i,
    {
        let cs = s.get_char(n - m + i);
        let cx = suffix.get_char(i);
        if cs != cx {
            proof {
                assert(s@.subrange(n - m, n as int)[i as int] == s@[n - m + i]);
                assert(s@.subrange(n - m, n as int) != suffix@);
            }
            return false;
        }
        i = i + 1;
    }
    proof {
        assert(s@.subrange(n - m, n as int) =~= suffix@);
    }
    true
}

impl GcTargetInfo {
    /// Infers the block kind from the spelling of the allocated value's type
    /// name, and pairs it with a cleared mark bit.
    pub fn new_unmarked(ty_name: &str) -> (r: GcTargetInfo)
        ensures
            r.ty == kind_for_name(ty_name@),
            r.state == GcState::Unmarked,
    {
        let ty = if str_ends_with(ty_name, "Array") {
            GcTargetType::Array
        } else if str_ends_with(ty_name, "ObjectBody") {
            GcTargetType::Object
        } else if str_ends_with(ty_name, "Class") {
            GcTargetType::Class
        } else if str_ends_with(ty_name, "ClassHeap") {
            GcTargetType::ClassHeap
        } else if str_ends_with(ty_name, "ObjectHeap") {
            GcTargetType::ObjectHeap
        } else if str_ends_with(ty_name, "RuntimeEnvironment") {
            GcTargetType::RuntimeEnvironment
        } else {
            GcTargetType::Unknown
        };
        GcTargetInfo { ty, state: GcState::Unmarked }
    }
}

/// The variant type names the arena allocator stamps blocks with map to the
/// matching kinds under the suffix cascade.
pub proof fn lemma_variant_names_have_their_kinds()
    ensures
        kind_for_name("Array"@) == GcTargetType::Array,
        kind_for_name("ObjectBody"@) == GcTargetType::Object,
        kind_for_name("Class"@) == GcTargetType::Class,
        kind_for_name("ClassHeap"@) == GcTargetType::ClassHeap,
        kind_for_name("ObjectHeap"@) == GcTargetType::ObjectHeap,
        kind_for_name("RuntimeEnvironment"@) == GcTargetType::RuntimeEnvironment,
{
    reveal_strlit("Array");
    reveal_strlit("ObjectBody");
    reveal_strlit("Class");
    reveal_strlit("ClassHeap");
    reveal_strlit("ObjectHeap");
    reveal_strlit("RuntimeEnvironment");
    assert(is_suffix_of("Array"@, "Array"@)) by {
        assert("Array"@.subrange(0, 5) =~= "Array"@);
    }
    assert(!is_suffix_of("Array"@, "ObjectBody"@)) by {
        assert("ObjectBody"@.subrange(5, 10)[0] == 't');
    }
    assert(is_suffix_of("ObjectBody"@, "ObjectBody"@)) by {
        assert("ObjectBody"@.subrange(0, 10) =~= "ObjectBody"@);
    }
    assert(!is_suffix_of("Array"@, "Class"@)) by {
        assert("Class"@.subrange(0, 5)[0] == 'C');
    }
    assert(is_suffix_of("Class"@, "Class"@)) by {
        assert("Class"@.subrange(0, 5) =~= "Class"@);
    }
    assert(!is_suffix_of("Array"@, "ClassHeap"@)) by {
        assert("ClassHeap"@.subrange(4, 9)[0] == 's');
    }
    assert(!is_suffix_of("Class"@, "ClassHeap"@)) by {
        assert("ClassHeap"@.subrange(4, 9)[0] == 's');
    }
    assert(is_suffix_of("ClassHeap"@, "ClassHeap"@)) by {
        assert("ClassHeap"@.subrange(0, 9) =~= "ClassHeap"@);
    }
    assert(!is_suffix_of("Array"@, "ObjectHeap"@)) by {
        assert("ObjectHeap"@.subrange(5, 10)[0] == 't');
    }
    assert(!is_suffix_of("ObjectBody"@, "ObjectHeap"@)) by {
        assert("ObjectHeap"@.subrange(0, 10)[6] == 'H');
    }
    assert(!is_suffix_of("Class"@, "ObjectHeap"@)) by {
        assert("ObjectHeap"@.subrange(5, 10)[0] == 't');
    }
    assert(!is_suffix_of("ClassHeap"@, "ObjectHeap"@)) by {
        assert("ObjectHeap"@.subrange(1, 10)[0] == 'b');
    }
    assert(is_suffix_of("ObjectHeap"@, "ObjectHeap"@)) by {
        assert("ObjectHeap"@.subrange(0, 10) =~= "ObjectHeap"@);
    }
    assert(!is_suffix_of("Array"@, "RuntimeEnvironment"@)) by {
        assert("RuntimeEnvironment"@.subrange(13, 18)[0] == 'n');
    }
    assert(!is_suffix_of("ObjectBody"@, "RuntimeEnvironment"@)) by {
        assert("RuntimeEnvironment"@.subrange(8, 18)[0] == 'n');
    }
    assert(!is_suffix_of("Class"@, "RuntimeEnvironment"@)) by {
        assert("RuntimeEnvironment"@.subrange(13, 18)[0] == 'n');
    }
    assert(!is_suffix_of("ClassHeap"@, "RuntimeEnvironment"@)) by {
        assert("RuntimeEnvironment"@.subrange(9, 18)[0] == 'v');
    }
    assert(!is_suffix_of("ObjectHeap"@, "RuntimeEnvironment"@)) by {
        assert("RuntimeEnvironment"@.subrange(8, 18)[0] == 'n');
    }
    assert(is_suffix_of("RuntimeEnvironment"@, "RuntimeEnvironment"@)) by {
        assert("RuntimeEnvironment"@.subrange(0, 18) =~= "RuntimeEnvironment"@);
    }
}

/// Some registered block has address `a`.
pub open spec fn has_addr(s: Seq<HeapEntry>, a: Word) -> bool {
    exists|i: int| 0 <= i < s.len() && (#[trigger] s[i]).addr == a
}

/// The registered block at address `a` (meaningful when `has_addr` holds and
/// addresses are unique).
pub open spec fn entry_at(s: Seq<HeapEntry>, a: Word) -> HeapEntry {
    s[choose|i: int| 0 <= i < s.len() && (#[trigger] s[i]).addr == a]
}

/// No two registered blocks share an address.
pub open spec fn addrs_unique(s: Seq<HeapEntry>) -> bool {
    forall|i: int, j: int|
        0 <= i < j < s.len() ==> (#[trigger] s[i]).addr != (#[trigger] s[j]).addr
}

pub proof fn lemma_entry_at(s: Seq<HeapEntry>, a: Word)
    requires
        addrs_unique(s),
        has_addr(s, a),
    ensures
        entry_at(s, a).addr == a,
        s.contains(entry_at(s, a)),
        forall|i: int| 0 <= i < s.len() && (#[trigger] s[i]).addr == a ==> s[i] == entry_at(s, a),
{
    let i = choose|i: int| 0 <= i < s.len() && (#[trigger] s[i]).addr == a;
    assert(s[i].addr == a);
    assert forall|j: int| 0 <= j < s.len() && (#[trigger] s[j]).addr == a implies s[j] == entry_at(
        s,
        a,
    ) by {
        if j < i {
            assert(s[j].addr != s[i].addr);
        } else if i < j {
            assert(s[i].addr != s[j].addr);
        }
    }
}

/// The bytes the sweep hands back for one block: the registered size of an
/// array, instance or class block, and zero for the facade blocks.
pub open spec fn freed_size(e: HeapEntry) -> nat {
    match e.info.ty {
        GcTargetType::Array => e.size as nat,
        GcTargetType::Object => e.size as nat,
        GcTargetType::Class => e.size as nat,
        _ => 0,
    }
}

/// The bytes a sweep of all of `s` would hand back.
pub open spec fn sized_total(s: Seq<HeapEntry>) -> nat
    decreases s.len(),
{
    if s.len() == 0 {
        0
    } else {
        sized_total(s.drop_last()) + freed_size(s.last())
    }
}

pub proof fn lemma_sized_total_prefix_le(s: Seq<HeapEntry>, i: int)
    requires
        0 <= i <= s.len(),
    ensures
        sized_total(s.take(i)) <= sized_total(s),
    decreases s.len() - i,
{
    if i == s.len() {
        assert(s.take(i) =~= s);
    } else {
        assert(s.take(i + 1).drop_last() =~= s.take(i));
        assert(s.take(i + 1).last() == s[i]);
        lemma_sized_total_prefix_le(s, i + 1);
    }
}

/// The blocks of `s` whose addresses the set `live` holds, in order.
pub open spec fn surviving(s: Seq<HeapEntry>, live: Set<Word>) -> Seq<HeapEntry>
    decreases s.len(),
{
    if s.len() == 0 {
        s
    } else {
        let rest = surviving(s.drop_last(), live);
        if live.contains(s.last().addr) {
            rest.push(s.last())
        } else {
            rest
        }
    }
}

/// What a sweep keeps: membership, preserved entries, preserved uniqueness,
/// and a released total that never exceeds what was accounted.
pub proof fn lemma_surviving(s: Seq<HeapEntry>, live: Set<Word>)
    requires
        addrs_unique(s),
    ensures
        forall|a: Word| has_addr(surviving(s, live), a) <==> has_addr(s, a) && live.contains(a),
        forall|j: int|
            0 <= j < surviving(s, live).len() ==> s.contains(#[trigger] surviving(s, live)[j]),
        addrs_unique(surviving(s, live)),
        sized_total(surviving(s, live)) <= sized_total(s),
        forall|a: Word|
            has_addr(surviving(s, live), a) ==> entry_at(surviving(s, live), a) == entry_at(s, a),
    decreases s.len(),
{
    if s.len() == 0 {
    } else {
        let pre = s.drop_last();
        let e = s.last();
        assert(addrs_unique(pre));
        lemma_surviving(pre, live);
        let restk = surviving(pre, live);
        assert forall|j: int| 0 <= j < restk.len() implies s.contains(#[trigger] restk[j]) by {
            assert(pre.contains(restk[j]));
            let i = choose|i: int| 0 <= i < pre.len() && pre[i] == restk[j];
            assert(s[i] == restk[j]);
        }
        if live.contains(e.addr) {
            let out = restk.push(e);
            assert(s.contains(e)) by {
                assert(s[s.len() - 1] == e);
            }
            // membership
            assert forall|a: Word| has_addr(out, a) implies has_addr(s, a) && live.contains(a) by {
                let i = choose|i: int| 0 <= i < out.len() && (#[trigger] out[i]).addr == a;
                if i < restk.len() {
                    assert(has_addr(restk, a));
                    let i2 = choose|i2: int|
                        0 <= i2 < pre.len() && (#[trigger] pre[i2]).addr == a;
                    assert(s[i2].addr == a);
                } else {
                    assert(out[i] == e);
                    assert(s[s.len() - 1].addr == a);
                }
            }
            assert forall|a: Word| has_addr(s, a) && live.contains(a) implies has_addr(out, a) by {
                let i = choose|i: int| 0 <= i < s.len() && (#[trigger] s[i]).addr == a;
                if i < pre.len() {
                    assert(pre[i].addr == a);
                    assert(has_addr(restk, a));
                    let i2 = choose|i2: int|
                        0 <= i2 < restk.len() && (#[trigger] restk[i2]).addr == a;
                    assert(out[i2].addr == a);
                } else {
                    assert(out[out.len() - 1].addr == a);
                }
            }
            // uniqueness: e.addr is not among restk's addrs
            assert forall|i: int, j: int| 0 <= i < j < out.len() implies (#[trigger] out[i]).addr
                != (#[trigger] out[j]).addr by {
                if j < out.len() - 1 {
                } else {
                    assert(out[j] == e);
                    if out[i].addr == e.addr {
                        assert(has_addr(restk, e.addr));
                        assert(has_addr(pre, e.addr));
                        let i2 = choose|i2: int|
                            0 <= i2 < pre.len() && (#[trigger] pre[i2]).addr == e.addr;
                        assert(s[i2].addr == s[s.len() - 1].addr);
                        assert(false);
                    }
                }
            }
            // sized_total
            assert(out.drop_last() =~= restk);
            assert(sized_total(out) == sized_total(restk) + freed_size(e));
            assert(sized_total(s) == sized_total(pre) + freed_size(e));
            // entry preservation
            assert forall|a: Word| has_addr(out, a) implies entry_at(out, a) == entry_at(s, a) by {
                lemma_entry_at(out, a);
                assert(has_addr(s, a));
                lemma_entry_at(s, a);
                let w = entry_at(out, a);
                assert(out.contains(w)) by {
                    lemma_entry_at(out, a);
                }
                let j = choose|j: int| 0 <= j < out.len() && out[j] == w;
                if j < restk.len() {
                    assert(s.contains(restk[j]));
                    let i2 = choose|i2: int| 0 <= i2 < s.len() && s[i2] == w;
                    assert(s[i2].addr == a);
                } else {
                    assert(w == e);
                    assert(s[s.len() - 1].addr == a);
                }
            }
        } else {
            let out = restk;
            assert forall|a: Word| has_addr(s, a) && live.contains(a) implies has_addr(out, a) by {
                let i = choose|i: int| 0 <= i < s.len() && (#[trigger] s[i]).addr == a;
                if i < pre.len() {
                    assert(pre[i].addr == a);
                } else {
                    assert(s[i] == e);
                    assert(false);
                }
            }
            assert forall|a: Word| has_addr(out, a) implies has_addr(s, a) && live.contains(a) by {
                let i2 = choose|i2: int| 0 <= i2 < pre.len() && (#[trigger] pre[i2]).addr == a;
                assert(s[i2].addr == a);
            }
            assert forall|a: Word| has_addr(out, a) implies entry_at(out, a) == entry_at(s, a) by {
                lemma_entry_at(out, a);
                assert(has_addr(s, a));
                lemma_entry_at(s, a);
                let w = entry_at(out, a);
                assert(out.contains(w));
                let j = choose|j: int| 0 <= j < out.len() && out[j] == w;
                assert(s.contains(w));
                let i2 = choose|i2: int| 0 <= i2 < s.len() && s[i2] == w;
                assert(s[i2].addr == a);
            }
        }
    }
}

/// When the live set covers every registered address, a sweep keeps the
/// registry exactly as it was.
pub proof fn lemma_surviving_all(s: Seq<HeapEntry>, live: Set<Word>)
    requires
        forall|j: int| 0 <= j < s.len() ==> live.contains((#[trigger] s[j]).addr),
    ensures
        surviving(s, live) == s,
    decreases s.len(),
{
    if s.len() == 0 {
    } else {
        let pre = s.drop_last();
        lemma_surviving_all(pre, live);
        assert(live.contains(s.last().addr)) by {
            assert(s[s.len() - 1] == s.last());
        }
        assert(surviving(pre, live).push(s.last()) =~= s);
    }
}

/// `a` is a registered address the trace rules reach from `roots` in at most
/// `k` edge steps.
pub open spec fn reachable_k(s: Seq<HeapEntry>, roots: Seq<Word>, a: Word, k: nat) -> bool
    decreases k,
{
    has_addr(s, a) && (roots.contains(a) || (k > 0 && exists|b: Word|
        reachable_k(s, roots, b, (k - 1) as nat) && edges_of(entry_at(s, b).obj).contains(a)))
}

/// `a` is a registered address transitively reachable from `roots`.
pub open spec fn reachable(s: Seq<HeapEntry>, roots: Seq<Word>, a: Word) -> bool {
    exists|k: nat| reachable_k(s, roots, a, k)
}

/// The set of registered addresses a cycle's trace reaches.
pub open spec fn reach_set(s: Seq<HeapEntry>, roots: Seq<Word>) -> Set<Word> {
    Set::new(|a: Word| reachable(s, roots, a))
}

/// A set that holds the registered roots and the registered successors of
/// each of its members holds everything reachable.
proof fn lemma_closed_set_holds_reachable(
    s: Seq<HeapEntry>,
    roots: Seq<Word>,
    marked: Seq<Word>,
    a: Word,
    k: nat,
)
    requires
        forall|r: Word| roots.contains(r) && has_addr(s, r) ==> marked.contains(r),
        forall|m: Word, e: Word|
            marked.contains(m) && #[trigger] edges_of(entry_at(s, m).obj).contains(e) && has_addr(
                s,
                e,
            ) ==> marked.contains(e),
        reachable_k(s, roots, a, k),
    ensures
        marked.contains(a),
    decreases k,
{
    if roots.contains(a) {
    } else {
        let b = choose|b: Word|
            reachable_k(s, roots, b, (k - 1) as nat) && edges_of(entry_at(s, b).obj).contains(a);
        lemma_closed_set_holds_reachable(s, roots, marked, b, (k - 1) as nat);
    }
}

/// Pruning a registry to its reachable blocks changes no block's
/// reachability: what the rules reached before, they reach after.
proof fn lemma_pruned_keeps_reachable(
    s0: Seq<HeapEntry>,
    s1: Seq<HeapEntry>,
    roots: Seq<Word>,
    a: Word,
    k: nat,
)
    requires
        forall|x: Word| has_addr(s1, x) <==> has_addr(s0, x) && reachable(s0, roots, x),
        forall|x: Word| has_addr(s1, x) ==> entry_at(s1, x) == entry_at(s0, x),
        reachable_k(s0, roots, a, k),
    ensures
        reachable_k(s1, roots, a, k),
    decreases k,
{
    assert(reachable(s0, roots, a)) by {
        assert(reachable_k(s0, roots, a, k));
    }
    if roots.contains(a) {
    } else {
        let b = choose|b: Word|
            reachable_k(s0, roots, b, (k - 1) as nat) && edges_of(entry_at(s0, b).obj).contains(a);
        lemma_pruned_keeps_reachable(s0, s1, roots, b, (k - 1) as nat);
        assert(has_addr(s1, b));
        assert(edges_of(entry_at(s1, b).obj).contains(a));
    }
}

/// Whether the trace set or worklist `v` holds the word `a`.
fn contains_word(v: &Vec<Word>, a: Word) -> (r: bool)
    ensures
        r == v@.contains(a),
{
    let n = v.len();
    let mut i: usize = 0;
    while i < n
        invariant
            n == v@.len(),
            i <= n,
            forall|j: int| 0 <= j < i ==> v@[j] != a,
        decreases n - i,
    {
        if v[i] == a {
            return true;
        }
        i = i + 1;
    }
    false
}

/// The registry of every heap allocation, with the tracked byte counter and
/// the collector's controls.  Addresses are even and nonzero, so the null
/// word and the odd string-payload handles are never registered.
pub struct GC {
    pub allocated_memory: Vec<HeapEntry>,
    pub allocated_memory_size_in_byte: usize,
    pub gc_disabled: bool,
    pub next_addr: Word,
    pub string_pool: Vec<Vec<u8>>,
}

impl GC {
    /// The registry invariant: unique, even, nonzero addresses below the
    /// allocation cursor; cleared mark bits between cycles; each block's kind
    /// stamped from its payload variant; well-formed payloads; and a byte
    /// counter no smaller than what a full sweep could hand back.
    pub open spec fn wf(self) -> bool {
        &&& addrs_unique(self.allocated_memory@)
        &&& forall|i: int|
            0 <= i < self.allocated_memory@.len() ==> {
                let e = #[trigger] self.allocated_memory@[i];
                &&& e.addr != 0
                &&& e.addr % 2 == 0
                &&& e.addr < self.next_addr
                &&& e.info.state == GcState::Unmarked
                &&& e.info.ty == kind_of(e.obj)
                &&& obj_wf(e.obj)
            }
        &&& self.next_addr % 2 == 0
        &&& self.next_addr >= 2
        &&& sized_total(self.allocated_memory@) <= self.allocated_memory_size_in_byte
    }

    /// A fresh registry: nothing allocated, nothing counted, collection
    /// enabled.
    pub fn new() -> (r: GC)
        ensures
            r.wf(),
            r.allocated_memory@.len() == 0,
            r.allocated_memory_size_in_byte == 0,
            r.gc_disabled == false,
            r.string_pool@.len() == 0,
    {
        GC {
            allocated_memory: Vec::new(),
            allocated_memory_size_in_byte: 0,
            gc_disabled: false,
            next_addr: 2,
            string_pool: Vec::new(),
        }
    }

    /// The current value of the tracked byte counter.
    pub fn total_bytes(&self) -> (r: usize)
        ensures
            r == self.allocated_memory_size_in_byte,
    {
        self.allocated_memory_size_in_byte
    }

    /// Registers a block of `size` bytes holding `val`: stamps its kind from
    /// the type name of the payload variant, hands out a fresh even address,
    /// and adds `size` to the byte counter.
    pub fn allocate(&mut self, val: HeapObject, size: usize) -> (r: Word)
        requires
            old(self).wf(),
            obj_wf(val),
            old(self).allocated_memory_size_in_byte + size <= usize::MAX,
            old(self).next_addr + 2 <= u64::MAX,
        ensures
            final(self).wf(),
            r == old(self).next_addr,
            r != 0 && r % 2 == 0,
            !has_addr(old(self).allocated_memory@, r),
            final(self).allocated_memory@ == old(self).allocated_memory@.push(
                HeapEntry {
                    addr: r,
                    size,
                    info: GcTargetInfo { ty: kind_of(val), state: GcState::Unmarked },
                    obj: val,
                },
            ),
            final(self).allocated_memory_size_in_byte == old(self).allocated_memory_size_in_byte
                + size,
            final(self).gc_disabled == old(self).gc_disabled,
            final(self).next_addr == old(self).next_addr + 2,
            final(self).string_pool == old(self).string_pool,
    {
        let info = match &val {
            HeapObject::Instance { .. } => GcTargetInfo::new_unmarked("ObjectBody"),
            HeapObject::ArrayObj { .. } => GcTargetInfo::new_unmarked("Array"),
            HeapObject::ClassObj { .. } => GcTargetInfo::new_unmarked("Class"),
            HeapObject::ClassHeapObj { .. } => GcTargetInfo::new_unmarked("ClassHeap"),
            HeapObject::ObjectHeapObj => GcTargetInfo::new_unmarked("ObjectHeap"),
            HeapObject::RuntimeEnvironmentObj { .. } => GcTargetInfo::new_unmarked(
                "RuntimeEnvironment",
            ),
        };
        proof {
            lemma_variant_names_have_their_kinds();
        }
        let ptr = self.next_addr;
        self.allocated_memory_size_in_byte = self.allocated_memory_size_in_byte + size;
        let entry = HeapEntry { addr: ptr, size, info, obj: val };
        self.allocated_memory.push(entry);
        self.next_addr = self.next_addr + 2;
        proof {
            let s0 = old(self).allocated_memory@;
            let s1 = self.allocated_memory@;
            assert(s1.drop_last() =~= s0);
            assert(sized_total(s1) == sized_total(s0) + freed_size(entry));
        }
        ptr
    }

    /// Re-enables collection.
    pub fn enable(&mut self)
        ensures
            final(self).gc_disabled == false,
            final(self).allocated_memory == old(self).allocated_memory,
            final(self).allocated_memory_size_in_byte == old(self).allocated_memory_size_in_byte,
            final(self).next_addr == old(self).next_addr,
            final(self).string_pool == old(self).string_pool,
    {
        self.gc_disabled = false;
    }

    /// Disables collection: the trigger short-circuits, allocations still
    /// register.
    pub fn disable(&mut self)
        ensures
            final(self).gc_disabled == true,
            final(self).allocated_memory == old(self).allocated_memory,
            final(self).allocated_memory_size_in_byte == old(self).allocated_memory_size_in_byte,
            final(self).next_addr == old(self).next_addr,
            final(self).string_pool == old(self).string_pool,
    {
        self.gc_disabled = true;
    }
}

/// The bytes freeing one block hands back: the registered size for arrays,
/// instances and classes; zero for the facade blocks, whose backing storage
/// is pooled.
fn free_ptr(e: &HeapEntry) -> (r: usize)
    ensures
        r == freed_size(*e),
{
    match e.info.ty {
        GcTargetType::Array => e.size,
        GcTargetType::Object => e.size,
        GcTargetType::Class => e.size,
        _ => 0,
    }
}

impl GC {
    /// The index of the registered block at address `a`, if any .
    pub fn find_index(&self, a: Word) -> (r: Option<usize>)
        ensures
            match r {
                Some(i) => i < self.allocated_memory@.len() && self.allocated_memory@[
                    i as int
                ].addr == a,
                None => !has_addr(self.allocated_memory@, a),
            },
    {
        let n = self.allocated_memory.len();
        let mut i: usize = 0;
        while i < n
            invariant
                n == self.allocated_memory@.len(),
                i <= n,
                forall|j: int| 0 <= j < i ==> (#[trigger] self.allocated_memory@[j]).addr != a,
            decreases n - i,
        {
            if self.allocated_memory[i].addr == a {
                return Some(i);
            }
            i = i + 1;
        }
        None
    }

    /// The mark phase: a depth-first walk from the roots over the registered
    /// blocks, cutting cycles with the cycle-local trace set it returns.  The
    /// trace set holds exactly the reachable addresses; it never holds the
    /// null word, which is never a registered address.
    fn trace(&self, vm: &VM) -> (marked: Vec<Word>)
        requires
            self.wf(),
        ensures
            forall|a: Word|
                #[trigger] marked@.contains(a) <==> reachable(
                    self.allocated_memory@,
                    root_words(*vm),
                    a,
                ),
            marked@.no_duplicates(),
            !marked@.contains(0),
    {
        let ghost entries = self.allocated_memory@;
        let ghost roots = root_words(*vm);
        let mut worklist: Vec<Word> = Vec::new();
        worklist.push(vm.runtime_env);
        worklist.push(vm.classheap);
        worklist.push(vm.objectheap);
        let ghost froots = vm.frame_stack@.map_values(|f: crate::heap::Frame| frame_root(f));
        let nf = vm.frame_stack.len();
        let mut i: usize = 0;
        while i < nf
            invariant
                nf == vm.frame_stack@.len(),
                i <= nf,
                froots == vm.frame_stack@.map_values(|f: crate::heap::Frame| frame_root(f)),
                worklist@ == seq![vm.runtime_env, vm.classheap, vm.objectheap] + froots.take(
                    i as int,
                ),
            decreases nf - i,
        {
            let f = &vm.frame_stack[i];
            let w = match f.class {
                Some(c) => c,
                None => 0,
            };
            worklist.push(w);
            proof {
                assert(froots[i as int] == frame_root(vm.frame_stack@[i as int]));
                assert(froots.take(i + 1) =~= froots.take(i as int).push(froots[i as int]));
            }
            i = i + 1;
        }
        proof {
            assert(froots.take(nf as int) =~= froots);
        }
        let ns = vm.stack.len();
        let mut j: usize = 0;
        while j < ns
            invariant
                ns == vm.stack@.len(),
                j <= ns,
                worklist@ == seq![vm.runtime_env, vm.classheap, vm.objectheap] + froots
                    + vm.stack@.take(j as int),
            decreases ns - j,
        {
            worklist.push(vm.stack[j]);
            proof {
                assert(vm.stack@.take(j + 1) =~= vm.stack@.take(j as int).push(vm.stack@[j as int]));
            }
            j = j + 1;
        }
        proof {
            assert(vm.stack@.take(ns as int) =~= vm.stack@);
            assert(worklist@ =~= roots);
            assert forall|a: Word| worklist@.contains(a) && has_addr(entries, a) implies
                reachable(entries, roots, a) by {
                assert(reachable_k(entries, roots, a, 0));
            }
        }

        let mut marked: Vec<Word> = Vec::new();
        while worklist.len() > 0
            invariant
                self.wf(),
                entries == self.allocated_memory@,
                roots == root_words(*vm),
                marked@.no_duplicates(),
                marked@.len() <= entries.len(),
                forall|a: Word|
                    #[trigger] marked@.contains(a) ==> has_addr(entries, a) && reachable(
                        entries,
                        roots,
                        a,
                    ),
                forall|a: Word|
                    #[trigger] worklist@.contains(a) && has_addr(entries, a) ==> reachable(
                        entries,
                        roots,
                        a,
                    ),
                forall|r: Word|
                    #[trigger] roots.contains(r) && has_addr(entries, r) ==> marked@.contains(r)
                        || worklist@.contains(r),
                forall|m: Word, e: Word|
                    marked@.contains(m) && #[trigger] edges_of(
                        entry_at(entries, m).obj,
                    ).contains(e) && has_addr(entries, e) ==> marked@.contains(e)
                        || worklist@.contains(e),
            decreases entries.len() - marked@.len(), worklist@.len(),
        {
            let ghost wl_old = worklist@;
            let popped = worklist.pop();
            let p = popped.unwrap();
            let ghost wl_before = worklist@.push(p);
            proof {
                assert(wl_old =~= wl_before);
                // every word of the queue but the popped one is still queued
                assert forall|x: Word| wl_before.contains(x) && x != p implies
                    worklist@.contains(x) by {
                    let ix = choose|ix: int| 0 <= ix < wl_before.len() && wl_before[ix] == x;
                    assert(ix < wl_before.len() - 1);
                    assert(worklist@[ix] == x);
                }
                // and nothing new was queued: what is queued stays reachable
                assert forall|a: Word| #[trigger] worklist@.contains(a) && has_addr(entries, a)
                    implies reachable(entries, roots, a) by {
                    let ix = choose|ix: int| 0 <= ix < worklist@.len() && worklist@[ix] == a;
                    assert(wl_before[ix] == a);
                    assert(wl_old.contains(a));
                }
            }
            if p == 0 {
                proof {
                    assert(!has_addr(entries, 0)) by {
                        if has_addr(entries, 0) {
                            let ix = choose|ix: int|
                                0 <= ix < entries.len() && (#[trigger] entries[ix]).addr == 0;
                            assert(self.allocated_memory@[ix] == entries[ix]);
                        }
                    }
                }
                continue ;
            }
            if contains_word(&marked, p) {
                continue ;
            }
            let found = self.find_index(p);
            let idx = match found {
                Some(idx) => idx,
                None => {
                    continue ;
                },
            };
            proof {
                assert(wl_before.contains(p)) by {
                    assert(wl_before[wl_before.len() - 1] == p);
                }
                assert(has_addr(entries, p));
                assert(reachable(entries, roots, p));
                lemma_entry_at(entries, p);
                assert(entries[idx as int] == entry_at(entries, p));
            }
            let ghost mk_before = marked@;
            let entry = &self.allocated_memory[idx];
            marked.push(p);
            push_edges(&mut worklist, &entry.obj);
            proof {
                let ghost edges = edges_of(entry_at(entries, p).obj);
                // soundness of the trace set: the marked word was reachable
                assert forall|a: Word| #[trigger] marked@.contains(a) implies has_addr(
                    entries,
                    a,
                ) && reachable(entries, roots, a) by {
                    let ix = choose|ix: int| 0 <= ix < marked@.len() && marked@[ix] == a;
                    if ix < marked@.len() - 1 {
                        assert(mk_before[ix] == a);
                        assert(mk_before.contains(a));
                    } else {
                        assert(a == p);
                    }
                }
                // soundness of the newly queued successors
                assert forall|e: Word| worklist@.contains(e) && has_addr(entries, e) implies
                    reachable(entries, roots, e) by {
                    let ix = choose|ix: int| 0 <= ix < worklist@.len() && worklist@[ix] == e;
                    if ix < wl_before.len() - 1 {
                        assert(wl_before.contains(e)) by {
                            assert(wl_before[ix] == e);
                        }
                    } else {
                        assert(edges.contains(e)) by {
                            assert(edges[ix - (wl_before.len() - 1)] == e);
                        }
                        let k = choose|k: nat| reachable_k(entries, roots, p, k);
                        assert(reachable_k(entries, roots, e, k + 1));
                    }
                }
                // the popped and marked word's successors are all queued
                assert forall|e: Word| edges.contains(e) implies worklist@.contains(e) by {
                    let ix = choose|ix: int| 0 <= ix < edges.len() && edges[ix] == e;
                    assert(worklist@[wl_before.len() - 1 + ix] == e);
                }
                // other marked words keep their queued successors: dropping p
                // from the worklist is repaid by p joining the trace set
                assert forall|m: Word, e: Word|
                    marked@.contains(m) && #[trigger] edges_of(
                        entry_at(entries, m).obj,
                    ).contains(e) && has_addr(entries, e) implies marked@.contains(e)
                    || worklist@.contains(e) by {
                    if m == p {
                    } else {
                        assert(mk_before.contains(m)) by {
                            let ix = choose|ix: int|
                                0 <= ix < marked@.len() && marked@[ix] == m;
                            assert(ix < marked@.len() - 1);
                        }
                        if e == p {
                            assert(marked@.contains(e)) by {
                                assert(marked@[marked@.len() - 1] == p);
                            }
                        } else if mk_before.contains(e) {
                            let ix = choose|ix: int|
                                0 <= ix < mk_before.len() && mk_before[ix] == e;
                            assert(marked@[ix] == e);
                        } else {
                            assert(wl_before.contains(e));
                            let ix = choose|ix: int|
                                0 <= ix < wl_before.len() && wl_before[ix] == e;
                            assert(ix < wl_before.len() - 1);
                            assert(worklist@[ix] == e);
                        }
                    }
                }
                // roots stay covered for the same reason
                assert forall|r: Word| roots.contains(r) && has_addr(entries, r) implies marked@
                    .contains(r) || worklist@.contains(r) by {
                    if r == p {
                        assert(marked@[marked@.len() - 1] == p);
                    } else if mk_before.contains(r) {
                        let ix = choose|ix: int|
                            0 <= ix < mk_before.len() && mk_before[ix] == r;
                        assert(marked@[ix] == r);
                    } else {
                        assert(wl_before.contains(r));
                        let ix = choose|ix: int|
                            0 <= ix < wl_before.len() && wl_before[ix] == r;
                        assert(ix < wl_before.len() - 1);
                        assert(worklist@[ix] == r);
                    }
                }
                // the trace set stays within the registry, so it cannot grow
                // past the registry's size
                let addrseq = entries.map_values(|en: HeapEntry| en.addr);
                assert forall|x: Word| marked@.to_set().contains(x) implies
                    addrseq.to_set().contains(x) by {
                    assert(marked@.contains(x));
                    assert(has_addr(entries, x));
                    let ix = choose|ix: int|
                        0 <= ix < entries.len() && (#[trigger] entries[ix]).addr == x;
                    assert(addrseq[ix] == x);
                }
                broadcast use seq_to_set_is_finite;

                lemma_len_subset(marked@.to_set(), addrseq.to_set());
                addrseq.lemma_cardinality_of_set();
                marked@.unique_seq_to_set();
            }
        }
        proof {
            assert forall|a: Word| reachable(entries, roots, a) implies marked@.contains(a) by {
                let k = choose|k: nat| reachable_k(entries, roots, a, k);
                lemma_closed_set_holds_reachable(entries, roots, marked@, a, k);
            }
            assert(!marked@.contains(0)) by {
                if marked@.contains(0) {
                    let ix = choose|ix: int|
                        0 <= ix < entries.len() && (#[trigger] entries[ix]).addr == 0;
                    assert(self.allocated_memory@[ix] == entries[ix]);
                }
            }
        }
        marked
    }

    /// The sweep phase: retains the blocks the trace set holds, frees every
    /// other block, and subtracts the freed bytes from the counter unless the
    /// subtraction would drive it below zero (then the counter is left as it
    /// is and the discrepancy ignored).
    fn free(&mut self, m: &Vec<Word>)
        requires
            old(self).wf(),
        ensures
            final(self).wf(),
            final(self).allocated_memory@ == surviving(old(self).allocated_memory@, m@.to_set()),
            final(self).allocated_memory_size_in_byte == old(self).allocated_memory_size_in_byte
                - (sized_total(old(self).allocated_memory@) - sized_total(
                final(self).allocated_memory@,
            )),
            final(self).gc_disabled == old(self).gc_disabled,
            final(self).next_addr == old(self).next_addr,
            final(self).string_pool == old(self).string_pool,
    {
        let ghost orig = self.allocated_memory@;
        let ghost live = m@.to_set();
        let mut kept: Vec<HeapEntry> = Vec::new();
        let mut total_released: usize = 0;
        proof {
            lemma_surviving(orig, live);
        }
        while self.allocated_memory.len() > 0
            invariant
                orig == old(self).allocated_memory@,
                live == m@.to_set(),
                self.allocated_memory@.len() <= orig.len(),
                self.allocated_memory@ == orig.skip(orig.len() - self.allocated_memory@.len()),
                kept@ == surviving(orig.take(orig.len() - self.allocated_memory@.len()), live),
                total_released + sized_total(kept@) == sized_total(
                    orig.take(orig.len() - self.allocated_memory@.len()),
                ),
                sized_total(orig) <= old(self).allocated_memory_size_in_byte,
                self.allocated_memory_size_in_byte == old(self).allocated_memory_size_in_byte,
                self.gc_disabled == old(self).gc_disabled,
                self.next_addr == old(self).next_addr,
                self.string_pool == old(self).string_pool,
            decreases self.allocated_memory@.len(),
        {
            let ghost done = orig.len() - self.allocated_memory@.len();
            let ghost before = self.allocated_memory@;
            let e = self.allocated_memory.remove(0);
            let ghost kept_before = kept@;
            proof {
                assert(before =~= orig.skip(done));
                assert(e == orig.skip(done)[0]);
                assert(orig.skip(done)[0] == orig[done]);
                assert(self.allocated_memory@ =~= orig.skip(done + 1));
                assert(orig.take(done + 1).drop_last() =~= orig.take(done));
                assert(orig.take(done + 1).last() == orig[done]);
                lemma_sized_total_prefix_le(orig, done + 1);
            }
            let is_marked = contains_word(m, e.addr);
            proof {
                assert(live.contains(e.addr) == m@.to_set().contains(e.addr));
                assert(m@.to_set().contains(e.addr) == m@.contains(e.addr));
            }
            if is_marked {
                kept.push(e);
                proof {
                    assert(live.contains(e.addr));
                    assert(kept@.drop_last() =~= kept_before);
                    assert(sized_total(kept@) == sized_total(kept_before) + freed_size(e));
                }
            } else {
                proof {
                    assert(!live.contains(e.addr));
                }
                let released = free_ptr(&e);
                total_released = total_released + released;
            }
        }
        proof {
            assert(orig.take(orig.len() as int) =~= orig);
            assert(kept@ == surviving(orig, live));
        }
        self.allocated_memory = kept;
        if total_released <= self.allocated_memory_size_in_byte {
            self.allocated_memory_size_in_byte = self.allocated_memory_size_in_byte
                - total_released;
        }
        proof {
            let fin = self.allocated_memory@;
            assert forall|i: int| 0 <= i < fin.len() implies {
                let e = #[trigger] fin[i];
                &&& e.addr != 0
                &&& e.addr % 2 == 0
                &&& e.addr < self.next_addr
                &&& e.info.state == GcState::Unmarked
                &&& e.info.ty == kind_of(e.obj)
                &&& obj_wf(e.obj)
            } by {
                assert(orig.contains(fin[i]));
                let ix = choose|ix: int| 0 <= ix < orig.len() && orig[ix] == fin[i];
                assert(old(self).allocated_memory@[ix] == fin[i]);
            }
        }
    }

    /// What one completed collection cycle does: the registry keeps exactly
    /// the blocks reachable from the roots, unchanged and in order; the freed
    /// bytes of the swept array, instance and class blocks leave the counter;
    /// the pool, the allocation cursor and the control flag stay as they
    /// were.
    pub open spec fn gc_cycle_post(g0: GC, g1: GC, vm: VM) -> bool {
        &&& g1.allocated_memory@ == surviving(
            g0.allocated_memory@,
            reach_set(g0.allocated_memory@, root_words(vm)),
        )
        &&& g1.allocated_memory_size_in_byte == g0.allocated_memory_size_in_byte - (sized_total(
            g0.allocated_memory@,
        ) - sized_total(g1.allocated_memory@))
        &&& g1.gc_disabled == g0.gc_disabled
        &&& g1.next_addr == g0.next_addr
        &&& g1.string_pool == g0.string_pool
    }

    /// The soft trigger check and, past it, one full collection cycle: when
    /// collection is disabled or no more than the threshold is tracked, the
    /// collector performs no work at all; at the first call past the
    /// threshold it marks and sweeps.
    pub fn mark_and_sweep(&mut self, vm: &VM)
        requires
            old(self).wf(),
        ensures
            final(self).wf(),
            old(self).gc_disabled || old(self).allocated_memory_size_in_byte
                <= GC_THRESHOLD_BYTES ==> *final(self) == *old(self),
            !old(self).gc_disabled && old(self).allocated_memory_size_in_byte
                > GC_THRESHOLD_BYTES ==> GC::gc_cycle_post(*old(self), *final(self), *vm),
    {
        if self.gc_disabled {
            return ;
        }
        let over10mib_allocated = self.allocated_memory_size_in_byte > GC_THRESHOLD_BYTES;
        if !over10mib_allocated {
            return ;
        }
        let m = self.trace(vm);
        proof {
            assert(m@.to_set() =~= reach_set(self.allocated_memory@, root_words(*vm)));
        }
        self.free(&m);
    }
}

/// Reachability conservation: every block transitively reachable from the
/// roots survives a collection cycle, with its payload unchanged.
pub proof fn lemma_reachable_block_survives_cycle(g0: GC, g1: GC, vm: VM, a: Word)
    requires
        g0.wf(),
        GC::gc_cycle_post(g0, g1, vm),
        reachable(g0.allocated_memory@, root_words(vm), a),
    ensures
        has_addr(g1.allocated_memory@, a),
        entry_at(g1.allocated_memory@, a) == entry_at(g0.allocated_memory@, a),
{
    let s0 = g0.allocated_memory@;
    let roots = root_words(vm);
    lemma_surviving(s0, reach_set(s0, roots));
    let k = choose|k: nat| reachable_k(s0, roots, a, k);
    assert(has_addr(s0, a));
    assert(reach_set(s0, roots).contains(a));
}

/// The sweep's effect on membership: a block survives a cycle exactly when
/// it was registered and reachable, and addresses stay unique, so each
/// unreachable block leaves the registry exactly once.
pub proof fn lemma_cycle_keeps_exactly_the_reachable_blocks(g0: GC, g1: GC, vm: VM, a: Word)
    requires
        g0.wf(),
        GC::gc_cycle_post(g0, g1, vm),
    ensures
        has_addr(g1.allocated_memory@, a) <==> (has_addr(g0.allocated_memory@, a) && reachable(
            g0.allocated_memory@,
            root_words(vm),
            a,
        )),
        addrs_unique(g0.allocated_memory@),
        addrs_unique(g1.allocated_memory@),
{
    let s0 = g0.allocated_memory@;
    let roots = root_words(vm);
    lemma_surviving(s0, reach_set(s0, roots));
}

/// Null tolerance: the null slot word is never a registered address, so no
/// trace ever reaches it, whatever null words the roots and slots hold.
pub proof fn lemma_null_is_never_traced(g: GC, vm: VM)
    requires
        g.wf(),
    ensures
        !reachable(g.allocated_memory@, root_words(vm), 0),
{
    let s = g.allocated_memory@;
    if reachable(s, root_words(vm), 0) {
        let k = choose|k: nat| reachable_k(s, root_words(vm), 0, k);
        assert(has_addr(s, 0));
        let ix = choose|ix: int| 0 <= ix < s.len() && (#[trigger] s[ix]).addr == 0;
        assert(g.allocated_memory@[ix] == s[ix]);
    }
}

proof fn lemma_no_registered_roots_aux(s: Seq<HeapEntry>, roots: Seq<Word>, a: Word, k: nat)
    requires
        forall|r: Word| roots.contains(r) ==> !has_addr(s, r),
    ensures
        !reachable_k(s, roots, a, k),
    decreases k,
{
    if reachable_k(s, roots, a, k) {
        if roots.contains(a) {
            assert(!has_addr(s, a));
        } else {
            let b = choose|b: Word|
                reachable_k(s, roots, b, (k - 1) as nat) && edges_of(
                    entry_at(s, b).obj,
                ).contains(a);
            lemma_no_registered_roots_aux(s, roots, b, (k - 1) as nat);
        }
    }
}

/// A root set with no registered address (null words, foreign words, or
/// nothing at all) reaches nothing.
pub proof fn lemma_no_registered_roots_nothing_reachable(
    s: Seq<HeapEntry>,
    roots: Seq<Word>,
    a: Word,
)
    requires
        forall|r: Word| roots.contains(r) ==> !has_addr(s, r),
    ensures
        !reachable(s, roots, a),
{
    if reachable(s, roots, a) {
        let k = choose|k: nat| reachable_k(s, roots, a, k);
        lemma_no_registered_roots_aux(s, roots, a, k);
    }
}

/// Registry accounting: a full collection that can reach nothing leaves the
/// registry empty; and when the counter holds exactly the bytes a full sweep
/// would hand back (as it does when every block was registered by an array,
/// instance or class allocation), the counter returns to zero.
pub proof fn lemma_collection_without_live_references_empties_registry(g0: GC, g1: GC, vm: VM)
    requires
        g0.wf(),
        GC::gc_cycle_post(g0, g1, vm),
        forall|a: Word| !reachable(g0.allocated_memory@, root_words(vm), a),
        g0.allocated_memory_size_in_byte == sized_total(g0.allocated_memory@),
    ensures
        g1.allocated_memory@.len() == 0,
        g1.allocated_memory_size_in_byte == 0,
{
    let s0 = g0.allocated_memory@;
    let s1 = g1.allocated_memory@;
    let roots = root_words(vm);
    lemma_surviving(s0, reach_set(s0, roots));
    if s1.len() > 0 {
        let e = s1[0];
        assert(has_addr(s1, e.addr)) by {
            assert(s1[0].addr == e.addr);
        }
        assert(reach_set(s0, roots).contains(e.addr));
        assert(false);
    }
}

/// No double-free, as idempotence: a second collection cycle with no
/// intervening allocation keeps every block of the first cycle's registry
/// and hands back no bytes at all.
pub proof fn lemma_second_collection_is_identity(g0: GC, g1: GC, g2: GC, vm: VM)
    requires
        g0.wf(),
        GC::gc_cycle_post(g0, g1, vm),
        GC::gc_cycle_post(g1, g2, vm),
    ensures
        g2.allocated_memory@ == g1.allocated_memory@,
        g2.allocated_memory_size_in_byte == g1.allocated_memory_size_in_byte,
{
    let s0 = g0.allocated_memory@;
    let s1 = g1.allocated_memory@;
    let roots = root_words(vm);
    lemma_surviving(s0, reach_set(s0, roots));
    assert forall|j: int| 0 <= j < s1.len() implies reach_set(s1, roots).contains(
        (#[trigger] s1[j]).addr,
    ) by {
        let a = s1[j].addr;
        assert(has_addr(s1, a));
        assert(reach_set(s0, roots).contains(a));
        let k = choose|k: nat| reachable_k(s0, roots, a, k);
        assert forall|x: Word| has_addr(s1, x) implies has_addr(s0, x) && reachable(
            s0,
            roots,
            x,
        ) by {
            assert(reach_set(s0, roots).contains(x));
        }
        lemma_pruned_keeps_reachable(s0, s1, roots, a, k);
        assert(reachable(s1, roots, a)) by {
            assert(reachable_k(s1, roots, a, k));
        }
    }
    lemma_surviving_all(s1, reach_set(s1, roots));
}

} // verus!
