//! The object model of the heap: the closed set of object kinds, their
//! payloads, and the edges the collector follows out of each object.
//!
//! Objects live in an arena keyed by their address, a pointer-sized integer.
//! A slot word equal to zero denotes the null reference.  String character
//! payloads are kept in a side pool and are referenced through odd handles,
//! which can never collide with the even addresses the allocator hands out;
//! the tracer treats them as foreign (non-heap) addresses, as the collector
//! of the source VM treats raw character buffers.

use vstd::prelude::*;

verus! {

use crate::Word;

/// The element-type tag of an array: a primitive type code, or a reference
/// to the element class.  Only reference arrays have outgoing edges.
pub enum AType {
    Primitive(u32),
    Class(Word),
}

/// One constant-pool entry of a class, as far as the collector sees it:
/// a UTF8 entry may carry the address of an already-interned string object
/// (zero while not materialized); every other entry carries no reference.
pub enum Constant {
    Utf8 { java_string: Word },
    Other,
}

/// The payload of one heap block.  The variants are the closed set of
/// object kinds the VM materializes.
pub enum HeapObject {
    /// An instance: its owning class pointer and its ordered slot words.
    Instance { class: Word, variables: Vec<Word> },
    /// An array: element-type tag and elements, one word per element.
    /// Primitive arrays are modelled at byte granularity: each element
    /// holds one byte value.
    ArrayObj { atype: AType, elems: Vec<Word> },
    /// A class: its static variable slots and its constant pool.
    ClassObj { instance_fields: usize, static_variables: Vec<Word>, constant_pool: Vec<Constant> },
    /// The class heap: a map from internal class name to class pointer.
    ClassHeapObj { class_map: Vec<(Vec<u8>, Word)> },
    /// The object heap facade: no outgoing edges; what it allocates is
    /// reached through the other roots.
    ObjectHeapObj,
    /// The runtime environment: the process-wide handle bundling the class
    /// heap and the object heap.
    RuntimeEnvironmentObj { classheap: Word, objectheap: Word },
}

/// A frame of the interpreter, as far as the collector sees it: only the
/// frame's associated class pointer is a root.
pub struct Frame {
    pub class: Option<Word>,
}

/// The roots provider: the runtime environment, the two heap facades, the
/// active frames, and the operand stack of slot words.
pub struct VM {
    pub runtime_env: Word,
    pub classheap: Word,
    pub objectheap: Word,
    pub frame_stack: Vec<Frame>,
    pub stack: Vec<Word>,
}

/// The reference a constant-pool entry carries: the interned string address
/// of a materialized UTF8 entry, and the null word otherwise.
pub open spec fn constant_word(c: Constant) -> Word {
    match c {
        Constant::Utf8 { java_string } => java_string,
        Constant::Other => 0,
    }
}

/// The word a frame contributes to the root set (null when it has no class).
pub open spec fn frame_root(f: Frame) -> Word {
    match f.class {
        Some(c) => c,
        None => 0,
    }
}

/// The ordered root words of a collection cycle: the runtime environment,
/// the class heap, the object heap, every frame's class pointer, and every
/// operand-stack slot.
pub open spec fn root_words(vm: VM) -> Seq<Word> {
    seq![vm.runtime_env, vm.classheap, vm.objectheap]
        + vm.frame_stack@.map_values(|f: Frame| frame_root(f))
        + vm.stack@
}

/// The outgoing edges of an object: the words the tracer follows out of it.
/// Null words and foreign addresses among them are harmless: the tracer
/// ignores any word that is not a registered block address.
pub open spec fn edges_of(obj: HeapObject) -> Seq<Word> {
    match obj {
        HeapObject::Instance { class, variables } => seq![class] + variables@,
        HeapObject::ArrayObj { atype, elems } => match atype {
            AType::Class(_) => elems@,
            AType::Primitive(_) => Seq::empty(),
        },
        HeapObject::ClassObj { instance_fields: _, static_variables, constant_pool } => (
            static_variables@ + constant_pool@.map_values(|c: Constant| constant_word(c))
        ),
        HeapObject::ClassHeapObj { class_map } => class_map@.map_values(
            |p: (Vec<u8>, Word)| p.1,
        ),
        HeapObject::ObjectHeapObj => Seq::empty(),
        HeapObject::RuntimeEnvironmentObj { classheap, objectheap } => seq![
            classheap,
            objectheap,
        ],
    }
}

/// Well-formedness of a single payload: primitive arrays are modelled at
/// byte granularity, so each element holds a byte value.
pub open spec fn obj_wf(obj: HeapObject) -> bool {
    match obj {
        HeapObject::ArrayObj { atype, elems } => match atype {
            AType::Primitive(_) => forall|i: int| 0 <= i < elems@.len() ==> elems@[i] < 256,
            AType::Class(_) => true,
        },
        _ => true,
    }
}

/// Pushes the outgoing edges of `obj` onto `dst`, in the order `edges_of`
/// lists them.
pub(crate) fn push_edges(dst: &mut Vec<Word>, obj: &HeapObject)
    ensures
        final(dst)@ == old(dst)@ + edges_of(*obj),
{
    match obj {
        HeapObject::Instance { class, variables } => {
            dst.push(*class);
            let n = variables.len();
            let mut i: usize = 0;
            while i < n
                invariant
                    n == variables@.len(),
                    i <= n,
                    dst@ == old(dst)@ + seq![*class] + variables@.take(i as int),
                decreases n - i,
            {
                dst.push(variables[i]);
                proof {
                    assert(variables@.take(i + 1) =~= variables@.take(i as int).push(
                        variables@[i as int],
                    ));
                }
                i = i + 1;
            }
            proof {
                assert(variables@.take(n as int) =~= variables@);
                assert(old(dst)@ + seq![*class] + variables@ =~= old(dst)@ + (seq![*class]
                    + variables@));
            }
        },
        HeapObject::ArrayObj { atype, elems } => {
            match atype {
                AType::Class(_) => {
                    let n = elems.len();
                    let mut i: usize = 0;
                    while i < n
                        invariant
                            n == elems@.len(),
                            i <= n,
                            dst@ == old(dst)@ + elems@.take(i as int),
                        decreases n - i,
                    {
                        dst.push(elems[i]);
                        proof {
                            assert(elems@.take(i + 1) =~= elems@.take(i as int).push(
                                elems@[i as int],
                            ));
                        }
                        i = i + 1;
                    }
                    proof {
                        assert(elems@.take(n as int) =~= elems@);
                    }
                },
                AType::Primitive(_) => {
                    proof {
                        assert(dst@ =~= old(dst)@ + Seq::<Word>::empty());
                    }
                },
            }
        },
        HeapObject::ClassObj { instance_fields: _, static_variables, constant_pool } => {
            let n = static_variables.len();
            let mut i: usize = 0;
            while i < n
                invariant
                    n == static_variables@.len(),
                    i <= n,
                    dst@ == old(dst)@ + static_variables@.take(i as int),
                decreases n - i,
            {
                dst.push(static_variables[i]);
                proof {
                    assert(static_variables@.take(i + 1) =~= static_variables@.take(
                        i as int,
                    ).push(static_variables@[i as int]));
                }
                i = i + 1;
            }
            proof {
                assert(static_variables@.take(n as int) =~= static_variables@);
            }
            let m = constant_pool.len();
            let ghost cwords = constant_pool@.map_values(|c: Constant| constant_word(c));
            let mut j: usize = 0;
            while j < m
                invariant
                    m == constant_pool@.len(),
                    j <= m,
                    cwords == constant_pool@.map_values(|c: Constant| constant_word(c)),
                    dst@ == old(dst)@ + static_variables@ + cwords.take(j as int),
                decreases m - j,
            {
                let w = match &constant_pool[j] {
                    Constant::Utf8 { java_string } => *java_string,
                    Constant::Other => 0,
                };
                dst.push(w);
                proof {
                    assert(cwords[j as int] == constant_word(constant_pool@[j as int]));
                    assert(cwords.take(j + 1) =~= cwords.take(j as int).push(cwords[j as int]));
                }
                j = j + 1;
            }
            proof {
                assert(cwords.take(m as int) =~= cwords);
                assert(old(dst)@ + static_variables@ + cwords =~= old(dst)@ + (static_variables@
                    + cwords));
            }
        },
        HeapObject::ClassHeapObj { class_map } => {
            let n = class_map.len();
            let ghost cls = class_map@.map_values(|p: (Vec<u8>, Word)| p.1);
            let mut i: usize = 0;
            while i < n
                invariant
                    n == class_map@.len(),
                    i <= n,
                    cls == class_map@.map_values(|p: (Vec<u8>, Word)| p.1),
                    dst@ == old(dst)@ + cls.take(i as int),
                decreases n - i,
            {
                dst.push(class_map[i].1);
                proof {
                    assert(cls[i as int] == class_map@[i as int].1);
                    assert(cls.take(i + 1) =~= cls.take(i as int).push(cls[i as int]));
                }
                i = i + 1;
            }
            proof {
                assert(cls.take(n as int) =~= cls);
            }
        },
        HeapObject::ObjectHeapObj => {
            proof {
                assert(dst@ =~= old(dst)@ + Seq::<Word>::empty());
            }
        },
        HeapObject::RuntimeEnvironmentObj { classheap, objectheap } => {
            dst.push(*classheap);
            dst.push(*objectheap);
            proof {
                assert(dst@ =~= old(dst)@ + seq![*classheap, *objectheap]);
            }
        },
    }
}

} // verus!
