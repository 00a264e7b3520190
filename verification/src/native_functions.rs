//! The native trampolines generated code may call, and the closed catalog of
//! their names and signatures.
//!
//! Every trampoline receives the runtime environment as its first argument;
//! instance methods take the receiver as their second.  The trampolines that
//! only compute on the heap live here in full; the printing and the
//! floating-point mathematics they cannot carry are left to the host shell
//! around this library, which calls the heap logic here.

use vstd::prelude::*;
use vstd::pervasive::VecAdditionalExecFns;

verus! {

use crate::Word;
use crate::heap::HeapObject;
use crate::gc::{
    GC,
    HeapEntry,
    GcState,
    addrs_unique,
    entry_at,
    freed_size,
    has_addr,
    kind_of,
    lemma_entry_at,
    sized_total,
};

broadcast use vstd::set::group_set_axioms;

/// The byte size an instance allocation is registered with.
pub const INSTANCE_SIZE: usize = 32;

// ---------------------------------------------------------------------------
// Decimal formatting
// ---------------------------------------------------------------------------

/// The ASCII digit for one decimal place.
pub open spec fn digit_byte(d: nat) -> u8 {
    (48 + d) as u8
}

/// The ASCII decimal digits of a natural number, most significant first.
pub open spec fn decimal_digits(n: nat) -> Seq<u8>
    decreases n,
{
    if n < 10 {
        seq![digit_byte(n)]
    } else {
        decimal_digits(n / 10).push(digit_byte(n % 10))
    }
}

/// The ASCII decimal representation of an integer, minus sign included.
pub open spec fn decimal_of(i: int) -> Seq<u8> {
    if i < 0 {
        seq![45u8] + decimal_digits((-i) as nat)
    } else {
        decimal_digits(i as nat)
    }
}

/// Formats an integer as its ASCII decimal representation: what printing or
/// appending the integer writes.
pub fn format_i32(i: i32) -> (r: Vec<u8>)
    ensures
        r@ == decimal_of(i as int),
{
    let mag: u64 = if i < 0 {
        (-(i as i64)) as u64
    } else {
        i as u64
    };
    proof {
        assert(mag as int == if i < 0 { -(i as int) } else { i as int });
    }
    let mut digits: Vec<u8> = Vec::new();
    let mut n: u64 = mag;
    if n == 0 {
        digits.push(48);
        proof {
            assert(digits@ =~= decimal_of(i as int));
        }
        return digits;
    }
    while n > 0
        invariant
            mag > 0,
            n <= mag,
            if n > 0 {
                decimal_digits(mag as nat) == decimal_digits(n as nat) + digits@
            } else {
                decimal_digits(mag as nat) == digits@
            },
        decreases n,
    {
        let ghost pre = digits@;
        let d: u8 = (n % 10) as u8 + 48;
        digits.insert(0, d);
        proof {
            assert(digits@ =~= seq![d] + pre);
            assert(d == digit_byte(n as nat % 10));
            if n >= 10 {
                assert(decimal_digits(n as nat) == decimal_digits(n as nat / 10).push(
                    digit_byte(n as nat % 10),
                ));
                assert(decimal_digits(n as nat / 10).push(d) + pre =~= decimal_digits(
                    n as nat / 10,
                ) + (seq![d] + pre));
            } else {
                assert(decimal_digits(n as nat) =~= seq![d]);
                assert(seq![d] + pre =~= decimal_digits(n as nat) + pre);
            }
            assert(n as nat / 10 == (n / 10) as nat);
        }
        n = n / 10;
    }
    if i < 0 {
        let ghost pre = digits@;
        digits.insert(0, 45);
        proof {
            assert(digits@ =~= seq![45u8] + pre);
        }
    }
    proof {
        assert(digits@ =~= decimal_of(i as int));
    }
    digits
}

// ---------------------------------------------------------------------------
// Views into the heap
// ---------------------------------------------------------------------------

/// The payload of the registered block at `a`.
pub open spec fn block_obj(gc: GC, a: Word) -> HeapObject {
    entry_at(gc.allocated_memory@, a).obj
}

/// `a` is a registered instance.
pub open spec fn is_instance(gc: GC, a: Word) -> bool {
    has_addr(gc.allocated_memory@, a) && block_obj(gc, a) is Instance
}

/// The slot words of the instance at `a`.
pub open spec fn instance_vars(gc: GC, a: Word) -> Seq<Word> {
    block_obj(gc, a)->Instance_variables@
}

/// The owning class pointer of the instance at `a`.
pub open spec fn instance_class(gc: GC, a: Word) -> Word {
    block_obj(gc, a)->Instance_class
}

/// `h` is a live handle into the string payload pool: odd, and within the
/// pool.  Handles are odd so they can never collide with the even block
/// addresses; the tracer passes them over as foreign words.
pub open spec fn valid_handle(gc: GC, h: Word) -> bool {
    h % 2 == 1 && (h - 1) / 2 < gc.string_pool@.len()
}

/// The character payload a pool handle refers to.
pub open spec fn handle_payload(gc: GC, h: Word) -> Seq<u8> {
    gc.string_pool@[(h - 1) / 2]@
}

/// `s` is a string object: an instance whose slot 0 holds a live payload
/// handle.
pub open spec fn is_string_object(gc: GC, s: Word) -> bool {
    &&& is_instance(gc, s)
    &&& instance_vars(gc, s).len() >= 1
    &&& valid_handle(gc, instance_vars(gc, s)[0])
}

/// The character payload of the string object at `s`.
pub open spec fn string_payload(gc: GC, s: Word) -> Seq<u8> {
    handle_payload(gc, instance_vars(gc, s)[0])
}

/// `a` is a registered class.
pub open spec fn is_class(gc: GC, a: Word) -> bool {
    has_addr(gc.allocated_memory@, a) && block_obj(gc, a) is ClassObj
}

/// The declared instance slot count of the class at `a`.
pub open spec fn class_instance_fields(gc: GC, a: Word) -> usize {
    block_obj(gc, a)->ClassObj_instance_fields
}

/// `a` is the registered class heap.
pub open spec fn is_classheap(gc: GC, a: Word) -> bool {
    has_addr(gc.allocated_memory@, a) && block_obj(gc, a) is ClassHeapObj
}

/// `a` is the registered runtime environment.
pub open spec fn is_runtime_env(gc: GC, a: Word) -> bool {
    has_addr(gc.allocated_memory@, a) && block_obj(gc, a) is RuntimeEnvironmentObj
}

/// The class heap pointer the runtime environment at `a` bundles.
pub open spec fn env_classheap(gc: GC, a: Word) -> Word {
    block_obj(gc, a)->RuntimeEnvironmentObj_classheap
}

/// First-match lookup in a name-to-class association list.
pub open spec fn assoc_lookup(m: Seq<(Vec<u8>, Word)>, name: Seq<u8>) -> Option<Word>
    decreases m.len(),
{
    if m.len() == 0 {
        None
    } else if m[0].0@ == name {
        Some(m[0].1)
    } else {
        assoc_lookup(m.subrange(1, m.len() as int), name)
    }
}

/// The class registered under `name` in the class heap at `ch`.
pub open spec fn classheap_lookup(gc: GC, ch: Word, name: Seq<u8>) -> Option<Word> {
    assoc_lookup(block_obj(gc, ch)->ClassHeapObj_class_map@, name)
}

/// The internal name of the string class.
pub open spec fn string_class_name() -> Seq<u8> {
    seq![106u8, 97u8, 118u8, 97u8, 47u8, 108u8, 97u8, 110u8, 103u8, 47u8, 83u8, 116u8, 114u8,
        105u8, 110u8, 103u8]
}

/// The internal name of the string class, as the class heap keys it.
pub fn java_lang_string_name() -> (r: Vec<u8>)
    ensures
        r@ == string_class_name(),
{
    let mut v: Vec<u8> = Vec::new();
    v.push(106);
    v.push(97);
    v.push(118);
    v.push(97);
    v.push(47);
    v.push(108);
    v.push(97);
    v.push(110);
    v.push(103);
    v.push(47);
    v.push(83);
    v.push(116);
    v.push(114);
    v.push(105);
    v.push(110);
    v.push(103);
    proof {
        assert(v@ =~= string_class_name());
    }
    v
}

/// The registry can take one more block of `size` bytes.
pub open spec fn can_allocate(gc: GC, size: nat) -> bool {
    &&& gc.allocated_memory_size_in_byte + size <= usize::MAX
    &&& gc.next_addr + 2 <= u64::MAX
}

/// The pool can take one more payload without exhausting the odd handles.
pub open spec fn can_intern(gc: GC) -> bool {
    2 * gc.string_pool@.len() + 1 <= u64::MAX
}

/// Whether the byte vectors `a` and `b` hold the same bytes.
fn bytes_eq(a: &Vec<u8>, b: &Vec<u8>) -> (r: bool)
    ensures
        r == (a@ == b@),
{
    if a.len() != b.len() {
        proof {
            assert(a@ != b@);
        }
        return false;
    }
    let n = a.len();
    let mut i: usize = 0;
    while i < n
        invariant
            n == a@.len(),
            n == b@.len(),
            i <= n,
            forall|j: int| 0 <= j < i ==> a@[j] == b@[j],
        decreases n - i,
    {
        if a[i] != b[i] {
            proof {
                assert(a@ != b@);
            }
            return false;
        }
        i = i + 1;
    }
    proof {
        assert(a@ =~= b@);
    }
    true
}

/// Replacing a block with one of the same address, kind and size keeps every
/// other block in place and every registry property intact.
pub proof fn lemma_update_entry(s: Seq<HeapEntry>, i: int, e: HeapEntry)
    requires
        addrs_unique(s),
        0 <= i < s.len(),
        e.addr == s[i].addr,
        freed_size(e) == freed_size(s[i]),
    ensures
        addrs_unique(s.update(i, e)),
        forall|a: Word| has_addr(s.update(i, e), a) <==> has_addr(s, a),
        entry_at(s.update(i, e), e.addr) == e,
        forall|a: Word|
            a != e.addr && has_addr(s, a) ==> entry_at(s.update(i, e), a) == entry_at(s, a),
        sized_total(s.update(i, e)) == sized_total(s),
    decreases s.len(),
{
    let t = s.update(i, e);
    assert forall|a: Word| has_addr(t, a) implies has_addr(s, a) by {
        let ix = choose|ix: int| 0 <= ix < t.len() && (#[trigger] t[ix]).addr == a;
        if ix == i {
            assert(s[i].addr == a);
        } else {
            assert(s[ix].addr == a);
        }
    }
    assert forall|a: Word| has_addr(s, a) implies has_addr(t, a) by {
        let ix = choose|ix: int| 0 <= ix < s.len() && (#[trigger] s[ix]).addr == a;
        if ix == i {
            assert(t[i].addr == a);
        } else {
            assert(t[ix].addr == a);
        }
    }
    assert(entry_at(t, e.addr) == e) by {
        lemma_entry_at(t, e.addr);
        assert(t[i].addr == e.addr);
    }
    assert forall|a: Word| a != e.addr && has_addr(s, a) implies entry_at(t, a) == entry_at(
        s,
        a,
    ) by {
        lemma_entry_at(s, a);
        lemma_entry_at(t, a);
        let ix = choose|ix: int| 0 <= ix < s.len() && (#[trigger] s[ix]).addr == a;
        assert(ix != i);
        assert(t[ix] == s[ix]);
        assert(t[ix].addr == a);
    }
    // the released total is unchanged, place by place
    if i == s.len() - 1 {
        assert(t.drop_last() =~= s.drop_last());
        assert(t.last() == e);
    } else {
        assert(t.drop_last() =~= s.drop_last().update(i, e));
        assert(t.last() == s.last());
        lemma_update_entry(s.drop_last(), i, e);
    }
}

// ---------------------------------------------------------------------------
// The object and class heap facades
// ---------------------------------------------------------------------------

impl GC {
    /// Looks a class up by its internal name, first match first, as the
    /// class heap facade resolves names.
    pub fn get_class(&self, classheap: Word, name: &Vec<u8>) -> (r: Option<Word>)
        requires
            self.wf(),
            is_classheap(*self, classheap),
        ensures
            r == classheap_lookup(*self, classheap, name@),
    {
        proof {
            lemma_entry_at(self.allocated_memory@, classheap);
        }
        let found = self.find_index(classheap);
        let i = match found {
            Some(i) => i,
            None => {
                proof {
                    assert(false);
                }
                return None;
            },
        };
        proof {
            assert(self.allocated_memory@[i as int] == entry_at(self.allocated_memory@, classheap));
        }
        match &self.allocated_memory[i].obj {
            HeapObject::ClassHeapObj { class_map } => {
                let ghost full = class_map@;
                let n = class_map.len();
                proof {
                    assert(full.subrange(0, n as int) =~= full);
                }
                let mut j: usize = 0;
                while j < n
                    invariant
                        self.wf(),
                        is_classheap(*self, classheap),
                        full == block_obj(*self, classheap)->ClassHeapObj_class_map@,
                        n == full.len(),
                        j <= n,
                        full == class_map@,
                        assoc_lookup(full, name@) == assoc_lookup(
                            full.subrange(j as int, n as int),
                            name@,
                        ),
                    decreases n - j,
                {
                    let hit = bytes_eq(&class_map[j].0, name);
                    proof {
                        assert(full.subrange(j as int, n as int)[0] == full[j as int]);
                        assert(full.subrange(j as int, n as int).subrange(
                            1,
                            (n - j) as int,
                        ) =~= full.subrange(j + 1, n as int));
                    }
                    if hit {
                        proof {
                            assert(full == block_obj(*self, classheap)->ClassHeapObj_class_map@);
                            assert(full.subrange(j as int, n as int)[0].0@ == name@);
                            assert(assoc_lookup(full.subrange(j as int, n as int), name@)
                                == Some(full[j as int].1));
                        }
                        return Some(class_map[j].1);
                    }
                    j = j + 1;
                }
                proof {
                    assert(full.subrange(n as int, n as int) =~= Seq::<(Vec<u8>, Word)>::empty());
                }
                None
            },
            _ => {
                proof {
                    assert(false);
                }
                None
            },
        }
    }

    /// The character payload behind a string object: what printing the
    /// string writes, and what `toString` exposes.
    pub fn get_string(&self, s: Word) -> (r: Vec<u8>)
        requires
            self.wf(),
            is_string_object(*self, s),
        ensures
            r@ == string_payload(*self, s),
    {
        proof {
            lemma_entry_at(self.allocated_memory@, s);
        }
        let found = self.find_index(s);
        let i = match found {
            Some(i) => i,
            None => {
                proof {
                    assert(false);
                }
                0
            },
        };
        proof {
            assert(self.allocated_memory@[i as int] == entry_at(self.allocated_memory@, s));
        }
        let slot0 = match &self.allocated_memory[i].obj {
            HeapObject::Instance { variables, .. } => variables[0],
            _ => {
                proof {
                    assert(false);
                }
                0
            },
        };
        proof {
            assert(slot0 == instance_vars(*self, s)[0]);
            assert(valid_handle(*self, slot0));
            assert((slot0 - 1) / 2 < self.string_pool@.len());
        }
        let plen = self.string_pool.len();
        proof {
            assert(self.string_pool@.len() <= usize::MAX);
        }
        let pi = ((slot0 - 1) / 2) as usize;
        proof {
            assert(pi as int == (slot0 - 1) / 2);
        }
        let src = &self.string_pool[pi];
        let n = src.len();
        let mut out: Vec<u8> = Vec::new();
        let mut k: usize = 0;
        while k < n
            invariant
                n == src@.len(),
                k <= n,
                out@ == src@.take(k as int),
            decreases n - k,
        {
            out.push(src[k]);
            proof {
                assert(src@.take(k + 1) =~= src@.take(k as int).push(src@[k as int]));
            }
            k = k + 1;
        }
        proof {
            assert(src@.take(n as int) =~= src@);
        }
        out
    }

    /// Allocates and registers an uninitialized instance of `class`: its
    /// slots are zeroed, one per declared instance field.
    pub fn create_object(&mut self, class: Word) -> (r: Word)
        requires
            old(self).wf(),
            is_class(*old(self), class),
            can_allocate(*old(self), INSTANCE_SIZE as nat),
        ensures
            final(self).wf(),
            r == old(self).next_addr,
            !has_addr(old(self).allocated_memory@, r),
            is_instance(*final(self), r),
            instance_class(*final(self), r) == class,
            instance_vars(*final(self), r).len() == class_instance_fields(*old(self), class),
            forall|j: int|
                0 <= j < instance_vars(*final(self), r).len() ==> instance_vars(*final(self), r)[j]
                    == 0,
            final(self).allocated_memory@.len() == old(self).allocated_memory@.len() + 1,
            forall|a: Word|
                has_addr(final(self).allocated_memory@, a) <==> has_addr(
                    old(self).allocated_memory@,
                    a,
                ) || a == r,
            forall|a: Word|
                a != r && has_addr(old(self).allocated_memory@, a) ==> entry_at(
                    final(self).allocated_memory@,
                    a,
                ) == entry_at(old(self).allocated_memory@, a),
            final(self).allocated_memory_size_in_byte == old(self).allocated_memory_size_in_byte
                + INSTANCE_SIZE,
            final(self).string_pool == old(self).string_pool,
            final(self).gc_disabled == old(self).gc_disabled,
            final(self).next_addr == old(self).next_addr + 2,
    {
        proof {
            lemma_entry_at(self.allocated_memory@, class);
        }
        let found = self.find_index(class);
        let ci = match found {
            Some(ci) => ci,
            None => {
                proof {
                    assert(false);
                }
                0
            },
        };
        proof {
            assert(self.allocated_memory@[ci as int] == entry_at(self.allocated_memory@, class));
        }
        let nfields = match &self.allocated_memory[ci].obj {
            HeapObject::ClassObj { instance_fields, .. } => *instance_fields,
            _ => {
                proof {
                    assert(false);
                }
                0
            },
        };
        let mut variables: Vec<Word> = Vec::new();
        let mut k: usize = 0;
        while k < nfields
            invariant
                k <= nfields,
                variables@.len() == k,
                forall|j: int| 0 <= j < k ==> variables@[j] == 0,
            decreases nfields - k,
        {
            variables.push(0);
            k = k + 1;
        }
        let ghost before = *self;
        let r = self.allocate(HeapObject::Instance { class, variables }, INSTANCE_SIZE);
        proof {
            let s1 = self.allocated_memory@;
            let s0 = before.allocated_memory@;
            assert(s1[s1.len() - 1].addr == r);
            assert(has_addr(s1, r));
            lemma_entry_at(s1, r);
            assert(entry_at(s1, r) == s1[s1.len() - 1]);
            assert forall|a: Word| has_addr(s1, a) implies has_addr(s0, a) || a == r by {
                let ix = choose|ix: int| 0 <= ix < s1.len() && (#[trigger] s1[ix]).addr == a;
                if ix < s0.len() {
                    assert(s0[ix].addr == a);
                }
            }
            assert forall|a: Word| has_addr(s0, a) implies has_addr(s1, a) by {
                let ix = choose|ix: int| 0 <= ix < s0.len() && (#[trigger] s0[ix]).addr == a;
                assert(s1[ix].addr == a);
            }
            assert forall|a: Word| a != r && has_addr(s0, a) implies entry_at(s1, a) == entry_at(
                s0,
                a,
            ) by {
                lemma_entry_at(s0, a);
                lemma_entry_at(s1, a);
                let ix = choose|ix: int| 0 <= ix < s0.len() && (#[trigger] s0[ix]).addr == a;
                assert(s1[ix] == s0[ix]);
                assert(s1[ix].addr == a);
            }
        }
        r
    }

    /// Interns a character payload and allocates a string instance whose
    /// slot 0 holds the payload handle, under the class the class heap
    /// registers for the string class name.
    pub fn create_string_object(&mut self, text: Vec<u8>, classheap: Word) -> (r: Word)
        requires
            old(self).wf(),
            is_classheap(*old(self), classheap),
            classheap_lookup(*old(self), classheap, string_class_name()) is Some,
            can_allocate(*old(self), INSTANCE_SIZE as nat),
            can_intern(*old(self)),
        ensures
            final(self).wf(),
            r == old(self).next_addr,
            !has_addr(old(self).allocated_memory@, r),
            is_string_object(*final(self), r),
            string_payload(*final(self), r) == text@,
            instance_class(*final(self), r) == classheap_lookup(
                *old(self),
                classheap,
                string_class_name(),
            )->0,
            instance_vars(*final(self), r).len() == 1,
            final(self).allocated_memory@.len() == old(self).allocated_memory@.len() + 1,
            forall|a: Word|
                has_addr(final(self).allocated_memory@, a) <==> has_addr(
                    old(self).allocated_memory@,
                    a,
                ) || a == r,
            forall|a: Word|
                a != r && has_addr(old(self).allocated_memory@, a) ==> entry_at(
                    final(self).allocated_memory@,
                    a,
                ) == entry_at(old(self).allocated_memory@, a),
            final(self).string_pool@ == old(self).string_pool@.push(text),
            final(self).allocated_memory_size_in_byte == old(self).allocated_memory_size_in_byte
                + INSTANCE_SIZE,
            final(self).gc_disabled == old(self).gc_disabled,
            final(self).next_addr == old(self).next_addr + 2,
    {
        let name = java_lang_string_name();
        let looked = self.get_class(classheap, &name);
        let cls = match looked {
            Some(c) => c,
            None => {
                proof {
                    assert(false);
                }
                0
            },
        };
        let h: Word = 2 * (self.string_pool.len() as u64) + 1;
        self.string_pool.push(text);
        let mut variables: Vec<Word> = Vec::new();
        variables.push(h);
        let ghost before = *self;
        let r = self.allocate(HeapObject::Instance { class: cls, variables }, INSTANCE_SIZE);
        proof {
            let s1 = self.allocated_memory@;
            let s0 = before.allocated_memory@;
            assert(s1[s1.len() - 1].addr == r);
            assert(has_addr(s1, r));
            lemma_entry_at(s1, r);
            assert(entry_at(s1, r) == s1[s1.len() - 1]);
            assert(instance_vars(*self, r) =~= seq![h]);
            assert((h - 1) / 2 == old(self).string_pool@.len());
            assert forall|a: Word| has_addr(s1, a) implies has_addr(s0, a) || a == r by {
                let ix = choose|ix: int| 0 <= ix < s1.len() && (#[trigger] s1[ix]).addr == a;
                if ix < s0.len() {
                    assert(s0[ix].addr == a);
                }
            }
            assert forall|a: Word| has_addr(s0, a) implies has_addr(s1, a) by {
                let ix = choose|ix: int| 0 <= ix < s0.len() && (#[trigger] s0[ix]).addr == a;
                assert(s1[ix].addr == a);
            }
            assert forall|a: Word| a != r && has_addr(s0, a) implies entry_at(s1, a) == entry_at(
                s0,
                a,
            ) by {
                lemma_entry_at(s0, a);
                lemma_entry_at(s1, a);
                let ix = choose|ix: int| 0 <= ix < s0.len() && (#[trigger] s0[ix]).addr == a;
                assert(s1[ix] == s0[ix]);
                assert(s1[ix].addr == a);
            }
        }
        r
    }
}

// ---------------------------------------------------------------------------
// The trampolines that compute on the heap
// ---------------------------------------------------------------------------

/// `a` is a registered array of a primitive element type.
pub open spec fn is_primitive_array(gc: GC, a: Word) -> bool {
    &&& has_addr(gc.allocated_memory@, a)
    &&& block_obj(gc, a) is ArrayObj
    &&& block_obj(gc, a)->ArrayObj_atype is Primitive
}

/// `a` is a registered array of a reference element type.
pub open spec fn is_ref_array(gc: GC, a: Word) -> bool {
    &&& has_addr(gc.allocated_memory@, a)
    &&& block_obj(gc, a) is ArrayObj
    &&& block_obj(gc, a)->ArrayObj_atype is Class
}

/// The elements of the array at `a`, one word each.
pub open spec fn array_elems(gc: GC, a: Word) -> Seq<Word> {
    block_obj(gc, a)->ArrayObj_elems@
}

/// Replaces one slot word of a registered instance, leaving every other
/// block and every registry total in place.
fn set_instance_slot(gc: &mut GC, obj: Word, slot: usize, value: Word)
    requires
        old(gc).wf(),
        is_instance(*old(gc), obj),
        (slot as int) < instance_vars(*old(gc), obj).len(),
    ensures
        final(gc).wf(),
        is_instance(*final(gc), obj),
        instance_vars(*final(gc), obj) == instance_vars(*old(gc), obj).update(
            slot as int,
            value,
        ),
        instance_class(*final(gc), obj) == instance_class(*old(gc), obj),
        forall|a: Word|
            has_addr(final(gc).allocated_memory@, a) <==> has_addr(old(gc).allocated_memory@, a),
        forall|a: Word|
            a != obj && has_addr(old(gc).allocated_memory@, a) ==> entry_at(
                final(gc).allocated_memory@,
                a,
            ) == entry_at(old(gc).allocated_memory@, a),
        final(gc).allocated_memory_size_in_byte == old(gc).allocated_memory_size_in_byte,
        final(gc).string_pool == old(gc).string_pool,
        final(gc).gc_disabled == old(gc).gc_disabled,
        final(gc).next_addr == old(gc).next_addr,
{
    proof {
        lemma_entry_at(gc.allocated_memory@, obj);
    }
    let found = gc.find_index(obj);
    let i = match found {
        Some(i) => i,
        None => {
            proof {
                assert(false);
            }
            0
        },
    };
    proof {
        assert(gc.allocated_memory@[i as int] == entry_at(gc.allocated_memory@, obj));
    }
    let entry = gc.allocated_memory.remove(i);
    let HeapEntry { addr, size, info, obj: payload } = entry;
    match payload {
        HeapObject::Instance { class, mut variables } => {
            variables.set(slot, value);
            let e2 = HeapEntry {
                addr,
                size,
                info,
                obj: HeapObject::Instance { class, variables },
            };
            gc.allocated_memory.insert(i, e2);
            proof {
                let s0 = old(gc).allocated_memory@;
                assert(gc.allocated_memory@ =~= s0.update(i as int, e2));
                lemma_update_entry(s0, i as int, e2);
                assert(entry_at(gc.allocated_memory@, obj) == e2);
                assert forall|ix: int| 0 <= ix < gc.allocated_memory@.len() implies {
                    let e = #[trigger] gc.allocated_memory@[ix];
                    &&& e.addr != 0
                    &&& e.addr % 2 == 0
                    &&& e.addr < gc.next_addr
                    &&& e.info.state == GcState::Unmarked
                    &&& e.info.ty == kind_of(e.obj)
                    &&& crate::heap::obj_wf(e.obj)
                } by {
                    assert(s0[ix] == old(gc).allocated_memory@[ix]);
                    if ix == i {
                        assert(s0[ix].info.ty == kind_of(s0[ix].obj));
                    }
                }
            }
        },
        _ => {
            proof {
                assert(false);
            }
        },
    }
}

/// Allocates an uninitialized instance of `class` through the object heap
/// the runtime environment carries, and hands its address back to generated
/// code.
pub fn ferrugo_internal_new(gc: &mut GC, renv: Word, class: Word) -> (r: Word)
    requires
        old(gc).wf(),
        is_runtime_env(*old(gc), renv),
        is_class(*old(gc), class),
        can_allocate(*old(gc), INSTANCE_SIZE as nat),
    ensures
        final(gc).wf(),
        r == old(gc).next_addr,
        !has_addr(old(gc).allocated_memory@, r),
        is_instance(*final(gc), r),
        instance_class(*final(gc), r) == class,
        instance_vars(*final(gc), r).len() == class_instance_fields(*old(gc), class),
        forall|j: int|
            0 <= j < instance_vars(*final(gc), r).len() ==> instance_vars(*final(gc), r)[j] == 0,
        forall|a: Word|
            has_addr(final(gc).allocated_memory@, a) <==> has_addr(old(gc).allocated_memory@, a)
                || a == r,
        forall|a: Word|
            a != r && has_addr(old(gc).allocated_memory@, a) ==> entry_at(
                final(gc).allocated_memory@,
                a,
            ) == entry_at(old(gc).allocated_memory@, a),
        final(gc).allocated_memory_size_in_byte == old(gc).allocated_memory_size_in_byte
            + INSTANCE_SIZE,
        final(gc).string_pool == old(gc).string_pool,
        final(gc).gc_disabled == old(gc).gc_disabled,
{
    let found = gc.find_index(renv);
    match found {
        Some(_) => {},
        None => {
            proof {
                assert(false);
            }
        },
    };
    gc.create_object(class)
}

/// Byte element load: reads the byte at `index` of a primitive array,
/// widened to a 32-bit integer.
pub fn ferrugo_internal_baload(gc: &GC, renv: Word, array: Word, index: u32) -> (r: u32)
    requires
        gc.wf(),
        is_primitive_array(*gc, array),
        (index as int) < array_elems(*gc, array).len(),
    ensures
        r as int == array_elems(*gc, array)[index as int],
{
    proof {
        lemma_entry_at(gc.allocated_memory@, array);
    }
    let found = gc.find_index(array);
    let i = match found {
        Some(i) => i,
        None => {
            proof {
                assert(false);
            }
            0
        },
    };
    proof {
        assert(gc.allocated_memory@[i as int] == entry_at(gc.allocated_memory@, array));
    }
    match &gc.allocated_memory[i].obj {
        HeapObject::ArrayObj { elems, .. } => {
            let w = elems[index as usize];
            proof {
                assert(crate::heap::obj_wf(gc.allocated_memory@[i as int].obj));
                assert(w < 256);
            }
            w as u32
        },
        _ => {
            proof {
                assert(false);
            }
            0
        },
    }
}

/// Pointer-word element load: reads the element at `index` of a reference
/// array.
pub fn ferrugo_internal_aaload(gc: &GC, renv: Word, array: Word, index: u32) -> (r: u64)
    requires
        gc.wf(),
        is_ref_array(*gc, array),
        (index as int) < array_elems(*gc, array).len(),
    ensures
        r == array_elems(*gc, array)[index as int],
{
    proof {
        lemma_entry_at(gc.allocated_memory@, array);
    }
    let found = gc.find_index(array);
    let i = match found {
        Some(i) => i,
        None => {
            proof {
                assert(false);
            }
            0
        },
    };
    proof {
        assert(gc.allocated_memory@[i as int] == entry_at(gc.allocated_memory@, array));
    }
    match &gc.allocated_memory[i].obj {
        HeapObject::ArrayObj { elems, .. } => elems[index as usize],
        _ => {
            proof {
                assert(false);
            }
            0
        },
    }
}

/// Byte element store: narrows `val` to a byte and writes it at `index` of a
/// primitive array.
pub fn ferrugo_internal_bastore(gc: &mut GC, renv: Word, array: Word, index: u32, val: u32)
    requires
        old(gc).wf(),
        is_primitive_array(*old(gc), array),
        (index as int) < array_elems(*old(gc), array).len(),
    ensures
        final(gc).wf(),
        is_primitive_array(*final(gc), array),
        array_elems(*final(gc), array) == array_elems(*old(gc), array).update(
            index as int,
            (val % 256) as Word,
        ),
        block_obj(*final(gc), array)->ArrayObj_atype == block_obj(
            *old(gc),
            array,
        )->ArrayObj_atype,
        forall|a: Word|
            has_addr(final(gc).allocated_memory@, a) <==> has_addr(old(gc).allocated_memory@, a),
        forall|a: Word|
            a != array && has_addr(old(gc).allocated_memory@, a) ==> entry_at(
                final(gc).allocated_memory@,
                a,
            ) == entry_at(old(gc).allocated_memory@, a),
        final(gc).allocated_memory_size_in_byte == old(gc).allocated_memory_size_in_byte,
        final(gc).string_pool == old(gc).string_pool,
        final(gc).gc_disabled == old(gc).gc_disabled,
        final(gc).next_addr == old(gc).next_addr,
{
    proof {
        lemma_entry_at(gc.allocated_memory@, array);
    }
    let found = gc.find_index(array);
    let i = match found {
        Some(i) => i,
        None => {
            proof {
                assert(false);
            }
            0
        },
    };
    proof {
        assert(gc.allocated_memory@[i as int] == entry_at(gc.allocated_memory@, array));
    }
    let entry = gc.allocated_memory.remove(i);
    let HeapEntry { addr, size, info, obj: payload } = entry;
    match payload {
        HeapObject::ArrayObj { atype, mut elems } => {
            elems.set(index as usize, (val % 256) as u64);
            let e2 = HeapEntry { addr, size, info, obj: HeapObject::ArrayObj { atype, elems } };
            gc.allocated_memory.insert(i, e2);
            proof {
                let s0 = old(gc).allocated_memory@;
                assert(gc.allocated_memory@ =~= s0.update(i as int, e2));
                lemma_update_entry(s0, i as int, e2);
                assert(entry_at(gc.allocated_memory@, array) == e2);
                assert forall|ix: int| 0 <= ix < gc.allocated_memory@.len() implies {
                    let e = #[trigger] gc.allocated_memory@[ix];
                    &&& e.addr != 0
                    &&& e.addr % 2 == 0
                    &&& e.addr < gc.next_addr
                    &&& e.info.state == GcState::Unmarked
                    &&& e.info.ty == kind_of(e.obj)
                    &&& crate::heap::obj_wf(e.obj)
                } by {
                    assert(s0[ix] == old(gc).allocated_memory@[ix]);
                    if ix == i {
                        assert(s0[ix].info.ty == kind_of(s0[ix].obj));
                        assert(crate::heap::obj_wf(s0[ix].obj));
                    }
                }
            }
        },
        _ => {
            proof {
                assert(false);
            }
        },
    }
}

/// Returns slot 0 of the builder verbatim: the string object the builder
/// holds, with no copy.
pub fn java_lang_stringbuilder_tostring_string(gc: &GC, renv: Word, obj: Word) -> (r: Word)
    requires
        gc.wf(),
        is_instance(*gc, obj),
        instance_vars(*gc, obj).len() >= 1,
    ensures
        r == instance_vars(*gc, obj)[0],
{
    proof {
        lemma_entry_at(gc.allocated_memory@, obj);
    }
    let found = gc.find_index(obj);
    let i = match found {
        Some(i) => i,
        None => {
            proof {
                assert(false);
            }
            0
        },
    };
    proof {
        assert(gc.allocated_memory@[i as int] == entry_at(gc.allocated_memory@, obj));
    }
    match &gc.allocated_memory[i].obj {
        HeapObject::Instance { variables, .. } => variables[0],
        _ => {
            proof {
                assert(false);
            }
            0
        },
    }
}

/// `b` can stand as the receiver of an append: an instance whose slot 0 is
/// either still null (the builder was never wired by a constructor) or a
/// string object.
pub open spec fn is_builder(gc: GC, b: Word) -> bool {
    &&& is_instance(gc, b)
    &&& instance_vars(gc, b).len() >= 1
    &&& (instance_vars(gc, b)[0] == 0 || is_string_object(gc, instance_vars(gc, b)[0]))
}

/// The characters the builder holds: none while slot 0 is null, else the
/// payload of its string object.
pub open spec fn builder_content(gc: GC, b: Word) -> Seq<u8> {
    if instance_vars(gc, b)[0] == 0 {
        Seq::empty()
    } else {
        string_payload(gc, instance_vars(gc, b)[0])
    }
}

/// What one append leaves behind: the builder holds a fresh string object
/// whose payload is the old content followed by `appended`; every other
/// block, every other slot of the builder, and every old pool payload stay
/// as they were.
pub open spec fn append_post(g0: GC, g1: GC, b: Word, appended: Seq<u8>) -> bool {
    &&& is_instance(g1, b)
    &&& instance_vars(g1, b).len() == instance_vars(g0, b).len()
    &&& instance_class(g1, b) == instance_class(g0, b)
    &&& is_string_object(g1, instance_vars(g1, b)[0])
    &&& string_payload(g1, instance_vars(g1, b)[0]) == builder_content(g0, b) + appended
    &&& forall|j: int|
        1 <= j < instance_vars(g0, b).len() ==> instance_vars(g1, b)[j] == instance_vars(g0, b)[j]
    &&& forall|a: Word|
        has_addr(g0.allocated_memory@, a) ==> has_addr(g1.allocated_memory@, a)
    &&& forall|a: Word|
        a != b && has_addr(g0.allocated_memory@, a) ==> entry_at(g1.allocated_memory@, a)
            == entry_at(g0.allocated_memory@, a)
    &&& g0.string_pool@.len() <= g1.string_pool@.len()
    &&& forall|k: int| 0 <= k < g0.string_pool@.len() ==> g1.string_pool@[k] == g0.string_pool@[k]
    &&& g1.gc_disabled == g0.gc_disabled
}

/// The shared body of the two appends: interns an empty string into a
/// still-null slot 0 first (no constructor ran for the builder), then
/// interns the concatenation of the current content and `extra` and hangs
/// it into slot 0.
fn append_payload(gc: &mut GC, renv: Word, obj: Word, extra: Vec<u8>)
    requires
        old(gc).wf(),
        is_runtime_env(*old(gc), renv),
        is_classheap(*old(gc), env_classheap(*old(gc), renv)),
        classheap_lookup(*old(gc), env_classheap(*old(gc), renv), string_class_name()) is Some,
        is_builder(*old(gc), obj),
        old(gc).allocated_memory_size_in_byte + 2 * INSTANCE_SIZE <= usize::MAX,
        old(gc).next_addr + 4 <= u64::MAX,
        2 * old(gc).string_pool@.len() + 3 <= u64::MAX,
    ensures
        final(gc).wf(),
        append_post(*old(gc), *final(gc), obj, extra@),
{
    let ghost g0 = *gc;
    proof {
        lemma_entry_at(gc.allocated_memory@, renv);
        lemma_entry_at(gc.allocated_memory@, obj);
    }
    let found = gc.find_index(renv);
    let ei = match found {
        Some(ei) => ei,
        None => {
            proof {
                assert(false);
            }
            0
        },
    };
    proof {
        assert(gc.allocated_memory@[ei as int] == entry_at(gc.allocated_memory@, renv));
    }
    let classheap = match &gc.allocated_memory[ei].obj {
        HeapObject::RuntimeEnvironmentObj { classheap, .. } => *classheap,
        _ => {
            proof {
                assert(false);
            }
            0
        },
    };
    let found_b = gc.find_index(obj);
    let bi = match found_b {
        Some(bi) => bi,
        None => {
            proof {
                assert(false);
            }
            0
        },
    };
    proof {
        assert(gc.allocated_memory@[bi as int] == entry_at(gc.allocated_memory@, obj));
    }
    let slot0 = match &gc.allocated_memory[bi].obj {
        HeapObject::Instance { variables, .. } => variables[0],
        _ => {
            proof {
                assert(false);
            }
            0
        },
    };
    proof {
        assert(slot0 == instance_vars(g0, obj)[0]);
        // the class heap and the builder are distinct blocks: their payload
        // variants differ
        assert(classheap != obj);
    }
    let mut content: Vec<u8>;
    if slot0 == 0 {
        let empty: Vec<u8> = Vec::new();
        let s0 = gc.create_string_object(empty, classheap);
        proof {
            assert(classheap != s0);
            assert(is_instance(*gc, obj));
            assert(instance_vars(*gc, obj) == instance_vars(g0, obj));
        }
        set_instance_slot(gc, obj, 0, s0);
        content = Vec::new();
        proof {
            assert(is_classheap(*gc, classheap));
            assert(classheap_lookup(*gc, classheap, string_class_name()) == classheap_lookup(
                g0,
                classheap,
                string_class_name(),
            ));
            assert(content@ =~= builder_content(g0, obj));
        }
    } else {
        content = gc.get_string(slot0);
        proof {
            assert(content@ =~= builder_content(g0, obj));
        }
    }
    let ghost g1 = *gc;
    let ghost base = content@;
    let n = extra.len();
    let mut k: usize = 0;
    while k < n
        invariant
            n == extra@.len(),
            k <= n,
            base == content@.take(base.len() as int),
            content@ == base + extra@.take(k as int),
        decreases n - k,
    {
        content.push(extra[k]);
        proof {
            assert(extra@.take(k + 1) =~= extra@.take(k as int).push(extra@[k as int]));
            assert((base + extra@.take(k as int)).push(extra@[k as int]) =~= base + extra@.take(
                k + 1,
            ));
            assert(content@.take(base.len() as int) =~= base);
        }
        k = k + 1;
    }
    proof {
        assert(extra@.take(n as int) =~= extra@);
        assert(content@ == base + extra@);
    }
    let s2 = gc.create_string_object(content, classheap);
    proof {
        assert(classheap != s2);
        assert(is_instance(*gc, obj));
    }
    set_instance_slot(gc, obj, 0, s2);
    proof {
        let gf = *gc;
        assert(instance_vars(gf, obj)[0] == s2);
        assert(is_string_object(gf, s2));
        assert(string_payload(gf, s2) == base + extra@);
        assert(string_payload(gf, s2) == builder_content(g0, obj) + extra@);
        assert forall|a: Word| a != obj && has_addr(g0.allocated_memory@, a) implies entry_at(
            gf.allocated_memory@,
            a,
        ) == entry_at(g0.allocated_memory@, a) by {
            assert(has_addr(g1.allocated_memory@, a));
        }
        assert forall|j: int| 1 <= j < instance_vars(g0, obj).len() implies instance_vars(
            gf,
            obj,
        )[j] == instance_vars(g0, obj)[j] by {
        }
    }
}

/// Appends the decimal representation of `i` to the builder and returns the
/// builder itself (chain semantics).
pub fn java_lang_stringbuilder_append_i_stringbuilder(
    gc: &mut GC,
    renv: Word,
    obj: Word,
    i: i32,
) -> (r: Word)
    requires
        old(gc).wf(),
        is_runtime_env(*old(gc), renv),
        is_classheap(*old(gc), env_classheap(*old(gc), renv)),
        classheap_lookup(*old(gc), env_classheap(*old(gc), renv), string_class_name()) is Some,
        is_builder(*old(gc), obj),
        old(gc).allocated_memory_size_in_byte + 2 * INSTANCE_SIZE <= usize::MAX,
        old(gc).next_addr + 4 <= u64::MAX,
        2 * old(gc).string_pool@.len() + 3 <= u64::MAX,
    ensures
        final(gc).wf(),
        r == obj,
        append_post(*old(gc), *final(gc), obj, decimal_of(i as int)),
{
    let digits = format_i32(i);
    append_payload(gc, renv, obj, digits);
    obj
}

/// Appends the payload of the string object `s` to the builder and returns
/// the builder itself (chain semantics).
pub fn java_lang_stringbuilder_append_string_stringbuilder(
    gc: &mut GC,
    renv: Word,
    obj: Word,
    s: Word,
) -> (r: Word)
    requires
        old(gc).wf(),
        is_runtime_env(*old(gc), renv),
        is_classheap(*old(gc), env_classheap(*old(gc), renv)),
        classheap_lookup(*old(gc), env_classheap(*old(gc), renv), string_class_name()) is Some,
        is_builder(*old(gc), obj),
        is_string_object(*old(gc), s),
        old(gc).allocated_memory_size_in_byte + 2 * INSTANCE_SIZE <= usize::MAX,
        old(gc).next_addr + 4 <= u64::MAX,
        2 * old(gc).string_pool@.len() + 3 <= u64::MAX,
    ensures
        final(gc).wf(),
        r == obj,
        append_post(*old(gc), *final(gc), obj, string_payload(*old(gc), s)),
{
    let str2 = gc.get_string(s);
    append_payload(gc, renv, obj, str2);
    obj
}

/// StringBuilder lazy initialization: an append of an integer to a builder
/// whose slot 0 is still null leaves a builder whose string object holds
/// exactly the decimal representation of the integer, which is what its
/// `toString` then returns.
pub proof fn lemma_append_to_fresh_builder(g0: GC, g1: GC, b: Word, i: i32)
    requires
        is_builder(g0, b),
        instance_vars(g0, b)[0] == 0,
        append_post(g0, g1, b, decimal_of(i as int)),
    ensures
        is_string_object(g1, instance_vars(g1, b)[0]),
        string_payload(g1, instance_vars(g1, b)[0]) == decimal_of(i as int),
{
    assert(builder_content(g0, b) =~= Seq::<u8>::empty());
    assert(Seq::<u8>::empty() + decimal_of(i as int) =~= decimal_of(i as int));
}


// ---------------------------------------------------------------------------
// The catalog of native names and signatures
// ---------------------------------------------------------------------------

/// The small type language of trampoline signatures.
#[derive(Debug, Clone, Copy, PartialEq, Eq, Structural)]
pub enum VariableType {
    Void,
    Int,
    Double,
    Pointer,
}

/// The closed catalog of native methods generated code may call, one variant
/// per symbolic name.
#[derive(Debug, Clone, Copy, PartialEq, Eq, Structural)]
pub enum NativeMethod {
    PrintlnI,
    PrintlnString,
    PrintString,
    AppendI,
    AppendString,
    BuilderToString,
    Random,
    Sqrt,
    Sin,
    Cos,
    Tan,
    Pow,
    Abs,
    InternalNew,
    InternalBaload,
    InternalAaload,
    InternalBastore,
}

/// A declared calling convention: the return type and the parameter types.
pub struct NativeSignature {
    pub ret: VariableType,
    pub params: Vec<VariableType>,
}

/// The return type declared for each catalog entry.
pub open spec fn ret_of(m: NativeMethod) -> VariableType {
    match m {
        NativeMethod::PrintlnI => VariableType::Void,
        NativeMethod::PrintlnString => VariableType::Void,
        NativeMethod::PrintString => VariableType::Void,
        NativeMethod::AppendI => VariableType::Pointer,
        NativeMethod::AppendString => VariableType::Pointer,
        NativeMethod::BuilderToString => VariableType::Pointer,
        NativeMethod::Random => VariableType::Double,
        NativeMethod::Sqrt => VariableType::Double,
        NativeMethod::Sin => VariableType::Double,
        NativeMethod::Cos => VariableType::Double,
        NativeMethod::Tan => VariableType::Double,
        NativeMethod::Pow => VariableType::Double,
        NativeMethod::Abs => VariableType::Double,
        NativeMethod::InternalNew => VariableType::Pointer,
        NativeMethod::InternalBaload => VariableType::Int,
        NativeMethod::InternalAaload => VariableType::Pointer,
        NativeMethod::InternalBastore => VariableType::Void,
    }
}

/// The parameter types declared for each catalog entry.  The first is always
/// the pointer to the runtime environment.
pub open spec fn params_of(m: NativeMethod) -> Seq<VariableType> {
    match m {
        NativeMethod::PrintlnI => seq![
            VariableType::Pointer,
            VariableType::Pointer,
            VariableType::Int,
        ],
        NativeMethod::PrintlnString => seq![
            VariableType::Pointer,
            VariableType::Pointer,
            VariableType::Pointer,
        ],
        NativeMethod::PrintString => seq![
            VariableType::Pointer,
            VariableType::Pointer,
            VariableType::Pointer,
        ],
        NativeMethod::AppendI => seq![
            VariableType::Pointer,
            VariableType::Pointer,
            VariableType::Int,
        ],
        NativeMethod::AppendString => seq![
            VariableType::Pointer,
            VariableType::Pointer,
            VariableType::Pointer,
        ],
        NativeMethod::BuilderToString => seq![VariableType::Pointer, VariableType::Pointer],
        NativeMethod::Random => seq![VariableType::Pointer],
        NativeMethod::Sqrt => seq![VariableType::Pointer, VariableType::Double],
        NativeMethod::Sin => seq![VariableType::Pointer, VariableType::Double],
        NativeMethod::Cos => seq![VariableType::Pointer, VariableType::Double],
        NativeMethod::Tan => seq![VariableType::Pointer, VariableType::Double],
        NativeMethod::Pow => seq![
            VariableType::Pointer,
            VariableType::Double,
            VariableType::Double,
        ],
        NativeMethod::Abs => seq![VariableType::Pointer, VariableType::Double],
        NativeMethod::InternalNew => seq![VariableType::Pointer, VariableType::Pointer],
        NativeMethod::InternalBaload => seq![
            VariableType::Pointer,
            VariableType::Pointer,
            VariableType::Int,
        ],
        NativeMethod::InternalAaload => seq![
            VariableType::Pointer,
            VariableType::Pointer,
            VariableType::Int,
        ],
        NativeMethod::InternalBastore => seq![
            VariableType::Pointer,
            VariableType::Pointer,
            VariableType::Int,
            VariableType::Int,
        ],
    }
}

/// The symbolic name of each catalog entry, as generated code links it.
pub open spec fn descriptor_of(m: NativeMethod) -> Seq<char> {
    match m {
        NativeMethod::PrintlnI => "java/io/PrintStream.println:(I)V"@,
        NativeMethod::PrintlnString => "java/io/PrintStream.println:(Ljava/lang/String;)V"@,
        NativeMethod::PrintString => "java/io/PrintStream.print:(Ljava/lang/String;)V"@,
        NativeMethod::AppendI => "java/lang/StringBuilder.append:(I)Ljava/lang/StringBuilder;"@,
        NativeMethod::AppendString => (
        "java/lang/StringBuilder.append:(Ljava/lang/String;)Ljava/lang/StringBuilder;"@),
        NativeMethod::BuilderToString => "java/lang/StringBuilder.toString:()Ljava/lang/String;"@,
        NativeMethod::Random => "java/lang/Math.random:()D"@,
        NativeMethod::Sqrt => "java/lang/Math.sqrt:(D)D"@,
        NativeMethod::Sin => "java/lang/Math.sin:(D)D"@,
        NativeMethod::Cos => "java/lang/Math.cos:(D)D"@,
        NativeMethod::Tan => "java/lang/Math.tan:(D)D"@,
        NativeMethod::Pow => "java/lang/Math.pow:(DD)D"@,
        NativeMethod::Abs => "java/lang/Math.abs:(D)D"@,
        NativeMethod::InternalNew => "ferrugo_internal_new"@,
        NativeMethod::InternalBaload => "ferrugo_internal_baload"@,
        NativeMethod::InternalAaload => "ferrugo_internal_aaload"@,
        NativeMethod::InternalBastore => "ferrugo_internal_bastore"@,
    }
}

/// Whether an address is bound for the name when the trampolines are linked.
/// Four of the mathematics entries are declared to the code generator but
/// given no address.
pub open spec fn is_bound_spec(m: NativeMethod) -> bool {
    match m {
        NativeMethod::Sqrt => false,
        NativeMethod::Cos => false,
        NativeMethod::Tan => false,
        NativeMethod::Abs => false,
        _ => true,
    }
}

/// The catalog, in declaration order.
pub open spec fn catalog_spec() -> Seq<NativeMethod> {
    seq![
        NativeMethod::PrintlnI,
        NativeMethod::PrintlnString,
        NativeMethod::PrintString,
        NativeMethod::AppendI,
        NativeMethod::AppendString,
        NativeMethod::BuilderToString,
        NativeMethod::Random,
        NativeMethod::Sqrt,
        NativeMethod::Sin,
        NativeMethod::Cos,
        NativeMethod::Tan,
        NativeMethod::Pow,
        NativeMethod::Abs,
        NativeMethod::InternalNew,
        NativeMethod::InternalBaload,
        NativeMethod::InternalAaload,
        NativeMethod::InternalBastore,
    ]
}

fn params1(a: VariableType) -> (r: Vec<VariableType>)
    ensures
        r@ == seq![a],
{
    let mut v: Vec<VariableType> = Vec::new();
    v.push(a);
    proof {
        assert(v@ =~= seq![a]);
    }
    v
}

fn params2(a: VariableType, b: VariableType) -> (r: Vec<VariableType>)
    ensures
        r@ == seq![a, b],
{
    let mut v: Vec<VariableType> = Vec::new();
    v.push(a);
    v.push(b);
    proof {
        assert(v@ =~= seq![a, b]);
    }
    v
}

fn params3(a: VariableType, b: VariableType, c: VariableType) -> (r: Vec<VariableType>)
    ensures
        r@ == seq![a, b, c],
{
    let mut v: Vec<VariableType> = Vec::new();
    v.push(a);
    v.push(b);
    v.push(c);
    proof {
        assert(v@ =~= seq![a, b, c]);
    }
    v
}

fn params4(a: VariableType, b: VariableType, c: VariableType, d: VariableType) -> (r: Vec<
    VariableType,
>)
    ensures
        r@ == seq![a, b, c, d],
{
    let mut v: Vec<VariableType> = Vec::new();
    v.push(a);
    v.push(b);
    v.push(c);
    v.push(d);
    proof {
        assert(v@ =~= seq![a, b, c, d]);
    }
    v
}

impl NativeMethod {
    /// The symbolic name under which generated code links this entry.
    pub fn descriptor(&self) -> (r: &'static str)
        ensures
            r@ == descriptor_of(*self),
    {
        match self {
            NativeMethod::PrintlnI => "java/io/PrintStream.println:(I)V",
            NativeMethod::PrintlnString => "java/io/PrintStream.println:(Ljava/lang/String;)V",
            NativeMethod::PrintString => "java/io/PrintStream.print:(Ljava/lang/String;)V",
            NativeMethod::AppendI => "java/lang/StringBuilder.append:(I)Ljava/lang/StringBuilder;",
            NativeMethod::AppendString => (
            "java/lang/StringBuilder.append:(Ljava/lang/String;)Ljava/lang/StringBuilder;"),
            NativeMethod::BuilderToString => "java/lang/StringBuilder.toString:()Ljava/lang/String;",
            NativeMethod::Random => "java/lang/Math.random:()D",
            NativeMethod::Sqrt => "java/lang/Math.sqrt:(D)D",
            NativeMethod::Sin => "java/lang/Math.sin:(D)D",
            NativeMethod::Cos => "java/lang/Math.cos:(D)D",
            NativeMethod::Tan => "java/lang/Math.tan:(D)D",
            NativeMethod::Pow => "java/lang/Math.pow:(DD)D",
            NativeMethod::Abs => "java/lang/Math.abs:(D)D",
            NativeMethod::InternalNew => "ferrugo_internal_new",
            NativeMethod::InternalBaload => "ferrugo_internal_baload",
            NativeMethod::InternalAaload => "ferrugo_internal_aaload",
            NativeMethod::InternalBastore => "ferrugo_internal_bastore",
        }
    }

    /// The declared calling convention of this entry.
    pub fn signature(&self) -> (r: NativeSignature)
        ensures
            r.ret == ret_of(*self),
            r.params@ == params_of(*self),
    {
        match self {
            NativeMethod::PrintlnI => NativeSignature {
                ret: VariableType::Void,
                params: params3(VariableType::Pointer, VariableType::Pointer, VariableType::Int),
            },
            NativeMethod::PrintlnString => NativeSignature {
                ret: VariableType::Void,
                params: params3(
                    VariableType::Pointer,
                    VariableType::Pointer,
                    VariableType::Pointer,
                ),
            },
            NativeMethod::PrintString => NativeSignature {
                ret: VariableType::Void,
                params: params3(
                    VariableType::Pointer,
                    VariableType::Pointer,
                    VariableType::Pointer,
                ),
            },
            NativeMethod::AppendI => NativeSignature {
                ret: VariableType::Pointer,
                params: params3(VariableType::Pointer, VariableType::Pointer, VariableType::Int),
            },
            NativeMethod::AppendString => NativeSignature {
                ret: VariableType::Pointer,
                params: params3(
                    VariableType::Pointer,
                    VariableType::Pointer,
                    VariableType::Pointer,
                ),
            },
            NativeMethod::BuilderToString => NativeSignature {
                ret: VariableType::Pointer,
                params: params2(VariableType::Pointer, VariableType::Pointer),
            },
            NativeMethod::Random => NativeSignature {
                ret: VariableType::Double,
                params: params1(VariableType::Pointer),
            },
            NativeMethod::Sqrt => NativeSignature {
                ret: VariableType::Double,
                params: params2(VariableType::Pointer, VariableType::Double),
            },
            NativeMethod::Sin => NativeSignature {
                ret: VariableType::Double,
                params: params2(VariableType::Pointer, VariableType::Double),
            },
            NativeMethod::Cos => NativeSignature {
                ret: VariableType::Double,
                params: params2(VariableType::Pointer, VariableType::Double),
            },
            NativeMethod::Tan => NativeSignature {
                ret: VariableType::Double,
                params: params2(VariableType::Pointer, VariableType::Double),
            },
            NativeMethod::Pow => NativeSignature {
                ret: VariableType::Double,
                params: params3(
                    VariableType::Pointer,
                    VariableType::Double,
                    VariableType::Double,
                ),
            },
            NativeMethod::Abs => NativeSignature {
                ret: VariableType::Double,
                params: params2(VariableType::Pointer, VariableType::Double),
            },
            NativeMethod::InternalNew => NativeSignature {
                ret: VariableType::Pointer,
                params: params2(VariableType::Pointer, VariableType::Pointer),
            },
            NativeMethod::InternalBaload => NativeSignature {
                ret: VariableType::Int,
                params: params3(VariableType::Pointer, VariableType::Pointer, VariableType::Int),
            },
            NativeMethod::InternalAaload => NativeSignature {
                ret: VariableType::Pointer,
                params: params3(VariableType::Pointer, VariableType::Pointer, VariableType::Int),
            },
            NativeMethod::InternalBastore => NativeSignature {
                ret: VariableType::Void,
                params: params4(
                    VariableType::Pointer,
                    VariableType::Pointer,
                    VariableType::Int,
                    VariableType::Int,
                ),
            },
        }
    }

    /// Whether the trampoline linker binds an address for this entry.
    pub fn is_bound(&self) -> (r: bool)
        ensures
            r == is_bound_spec(*self),
    {
        match self {
            NativeMethod::Sqrt => false,
            NativeMethod::Cos => false,
            NativeMethod::Tan => false,
            NativeMethod::Abs => false,
            _ => true,
        }
    }
}

/// The catalog of native methods, in the order the code generator declares
/// them.
pub fn native_functions() -> (r: Vec<NativeMethod>)
    ensures
        r@ == catalog_spec(),
{
    let mut v: Vec<NativeMethod> = Vec::new();
    v.push(NativeMethod::PrintlnI);
    v.push(NativeMethod::PrintlnString);
    v.push(NativeMethod::PrintString);
    v.push(NativeMethod::AppendI);
    v.push(NativeMethod::AppendString);
    v.push(NativeMethod::BuilderToString);
    v.push(NativeMethod::Random);
    v.push(NativeMethod::Sqrt);
    v.push(NativeMethod::Sin);
    v.push(NativeMethod::Cos);
    v.push(NativeMethod::Tan);
    v.push(NativeMethod::Pow);
    v.push(NativeMethod::Abs);
    v.push(NativeMethod::InternalNew);
    v.push(NativeMethod::InternalBaload);
    v.push(NativeMethod::InternalAaload);
    v.push(NativeMethod::InternalBastore);
    proof {
        assert(v@ =~= catalog_spec());
    }
    v
}

/// The calling convention invariant of the whole table: every entry takes
/// the pointer to the runtime environment as its first parameter, and every
/// instance method takes the receiver as its second.
pub proof fn lemma_every_trampoline_takes_env_first(m: NativeMethod)
    ensures
        params_of(m).len() >= 1,
        params_of(m)[0] == VariableType::Pointer,
{
}


} // verus!
