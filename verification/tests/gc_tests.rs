use ferrugo_core::gc::{GcState, GcTargetInfo, GcTargetType, GC, GC_THRESHOLD_BYTES};
use ferrugo_core::heap::{AType, Constant, Frame, HeapObject, VM};

fn empty_vm() -> VM {
    VM { runtime_env: 0, classheap: 0, objectheap: 0, frame_stack: vec![], stack: vec![] }
}

fn small_instance() -> HeapObject {
    HeapObject::Instance { class: 0, variables: vec![] }
}

#[test]
fn kind_inference_follows_type_name_suffixes() {
    assert_eq!(GcTargetInfo::new_unmarked("exec::frame::Array").ty, GcTargetType::Array);
    assert_eq!(GcTargetInfo::new_unmarked("exec::frame::ObjectBody").ty, GcTargetType::Object);
    assert_eq!(GcTargetInfo::new_unmarked("class::class::Class").ty, GcTargetType::Class);
    assert_eq!(GcTargetInfo::new_unmarked("classheap::ClassHeap").ty, GcTargetType::ClassHeap);
    assert_eq!(GcTargetInfo::new_unmarked("frame::ObjectHeap").ty, GcTargetType::ObjectHeap);
    assert_eq!(
        GcTargetInfo::new_unmarked("vm::RuntimeEnvironment").ty,
        GcTargetType::RuntimeEnvironment
    );
    assert_eq!(GcTargetInfo::new_unmarked("alloc::string::String").ty, GcTargetType::Unknown);
    assert_eq!(GcTargetInfo::new_unmarked("Array").state, GcState::Unmarked);
}

#[test]
fn trigger_does_no_work_at_or_under_threshold() {
    let mut gc = GC::new();
    let a = gc.allocate(small_instance(), GC_THRESHOLD_BYTES);
    let vm = empty_vm();
    gc.mark_and_sweep(&vm);
    assert_eq!(gc.total_bytes(), GC_THRESHOLD_BYTES);
    assert_eq!(gc.allocated_memory.len(), 1);
    assert!(gc.find_index(a).is_some());
}

#[test]
fn first_allocation_past_threshold_triggers_collection() {
    let mut gc = GC::new();
    gc.allocate(small_instance(), GC_THRESHOLD_BYTES);
    let vm = empty_vm();
    gc.mark_and_sweep(&vm);
    assert_eq!(gc.allocated_memory.len(), 1);
    gc.allocate(small_instance(), 1);
    gc.mark_and_sweep(&vm);
    assert_eq!(gc.allocated_memory.len(), 0);
    assert_eq!(gc.total_bytes(), 0);
}

#[test]
fn collection_with_no_live_references_empties_the_registry() {
    let mut gc = GC::new();
    for _ in 0..8 {
        gc.allocate(small_instance(), 2 * 1024 * 1024);
    }
    assert_eq!(gc.total_bytes(), 16 * 1024 * 1024);
    let vm = empty_vm();
    gc.mark_and_sweep(&vm);
    assert_eq!(gc.total_bytes(), 0);
    assert_eq!(gc.allocated_memory.len(), 0);
}

#[test]
fn collection_reclaims_only_the_unreferenced() {
    let mut gc = GC::new();
    // 2 MiB of small instances whose pointers are dropped
    for _ in 0..4 {
        gc.allocate(small_instance(), 512 * 1024);
    }
    // further allocation, referenced from the operand stack, crossing 10 MiB
    let kept = gc.allocate(small_instance(), 9 * 1024 * 1024);
    assert!(gc.total_bytes() > GC_THRESHOLD_BYTES);
    let before = gc.total_bytes();
    let mut vm = empty_vm();
    vm.stack.push(kept);
    gc.mark_and_sweep(&vm);
    assert!(before - gc.total_bytes() >= 2 * 1024 * 1024);
    assert_eq!(gc.total_bytes(), 9 * 1024 * 1024);
    assert_eq!(gc.allocated_memory.len(), 1);
    assert!(gc.find_index(kept).is_some());
}

#[test]
fn collection_preserves_the_referenced_payload() {
    let mut gc = GC::new();
    let kept = gc.allocate(
        HeapObject::Instance { class: 0, variables: vec![7, 8, 9] },
        11 * 1024 * 1024,
    );
    let mut vm = empty_vm();
    vm.stack.push(kept);
    gc.mark_and_sweep(&vm);
    let i = gc.find_index(kept).expect("referenced block must survive");
    match &gc.allocated_memory[i].obj {
        HeapObject::Instance { variables, .. } => assert_eq!(variables, &vec![7, 8, 9]),
        _ => panic!("wrong kind"),
    }
}

#[test]
fn cycle_of_two_instances_is_marked_and_then_swept() {
    let mut gc = GC::new();
    let a = gc.allocate(small_instance(), 6 * 1024 * 1024);
    let b = gc.allocate(small_instance(), 6 * 1024 * 1024);
    // wire the cycle: a.slot0 = b, b.slot0 = a
    let ia = gc.find_index(a).unwrap();
    if let HeapObject::Instance { variables, .. } = &mut gc.allocated_memory[ia].obj {
        variables.push(b);
    }
    let ib = gc.find_index(b).unwrap();
    if let HeapObject::Instance { variables, .. } = &mut gc.allocated_memory[ib].obj {
        variables.push(a);
    }
    let mut vm = empty_vm();
    vm.stack.push(a);
    gc.mark_and_sweep(&vm);
    assert!(gc.find_index(a).is_some());
    assert!(gc.find_index(b).is_some());
    // detached from the roots, the cycle is fully swept
    let vm2 = empty_vm();
    gc.mark_and_sweep(&vm2);
    assert!(gc.find_index(a).is_none());
    assert!(gc.find_index(b).is_none());
    assert_eq!(gc.total_bytes(), 0);
}

#[test]
fn two_consecutive_collections_are_idempotent() {
    let mut gc = GC::new();
    gc.allocate(small_instance(), 2 * 1024 * 1024);
    let kept = gc.allocate(small_instance(), 11 * 1024 * 1024);
    let mut vm = empty_vm();
    vm.stack.push(kept);
    gc.mark_and_sweep(&vm);
    let len_after_first = gc.allocated_memory.len();
    let bytes_after_first = gc.total_bytes();
    gc.mark_and_sweep(&vm);
    assert_eq!(gc.allocated_memory.len(), len_after_first);
    assert_eq!(gc.total_bytes(), bytes_after_first);
}

#[test]
fn disabling_stops_sweeping_but_not_registration() {
    let mut gc = GC::new();
    gc.disable();
    gc.allocate(small_instance(), 11 * 1024 * 1024);
    assert_eq!(gc.total_bytes(), 11 * 1024 * 1024);
    let vm = empty_vm();
    gc.mark_and_sweep(&vm);
    assert_eq!(gc.allocated_memory.len(), 1);
    gc.enable();
    gc.mark_and_sweep(&vm);
    assert_eq!(gc.allocated_memory.len(), 0);
}

#[test]
fn null_words_in_roots_and_slots_are_tolerated() {
    let mut gc = GC::new();
    let kept = gc.allocate(
        HeapObject::Instance { class: 0, variables: vec![0, 0, 0] },
        11 * 1024 * 1024,
    );
    let mut vm = empty_vm();
    vm.stack.push(0);
    vm.stack.push(kept);
    vm.stack.push(0);
    vm.frame_stack.push(Frame { class: None });
    gc.mark_and_sweep(&vm);
    assert!(gc.find_index(kept).is_some());
    assert_eq!(gc.allocated_memory.len(), 1);
}

#[test]
fn environment_class_heap_and_statics_are_traced() {
    let mut gc = GC::new();
    let static_target = gc.allocate(small_instance(), 16);
    let interned = gc.allocate(small_instance(), 16);
    let class = gc.allocate(
        HeapObject::ClassObj {
            instance_fields: 0,
            static_variables: vec![static_target],
            constant_pool: vec![
                Constant::Other,
                Constant::Utf8 { java_string: interned },
                Constant::Utf8 { java_string: 0 },
            ],
        },
        64,
    );
    let classheap = gc.allocate(
        HeapObject::ClassHeapObj { class_map: vec![(b"C".to_vec(), class)] },
        32,
    );
    let env = gc.allocate(
        HeapObject::RuntimeEnvironmentObj { classheap, objectheap: 0 },
        11 * 1024 * 1024,
    );
    let mut vm = empty_vm();
    vm.runtime_env = env;
    gc.mark_and_sweep(&vm);
    assert!(gc.find_index(env).is_some());
    assert!(gc.find_index(classheap).is_some());
    assert!(gc.find_index(class).is_some());
    assert!(gc.find_index(static_target).is_some());
    assert!(gc.find_index(interned).is_some());
}

#[test]
fn frame_class_pointers_are_roots() {
    let mut gc = GC::new();
    let class = gc.allocate(
        HeapObject::ClassObj {
            instance_fields: 0,
            static_variables: vec![],
            constant_pool: vec![],
        },
        11 * 1024 * 1024,
    );
    let mut vm = empty_vm();
    vm.frame_stack.push(Frame { class: Some(class) });
    gc.mark_and_sweep(&vm);
    assert!(gc.find_index(class).is_some());
}

#[test]
fn reference_arrays_have_edges_and_primitive_arrays_do_not() {
    let mut gc = GC::new();
    let through_ref = gc.allocate(small_instance(), 16);
    let through_prim = gc.allocate(small_instance(), 16);
    let ref_array = gc.allocate(
        HeapObject::ArrayObj { atype: AType::Class(0), elems: vec![through_ref, 0] },
        6 * 1024 * 1024,
    );
    let prim_array = gc.allocate(
        HeapObject::ArrayObj { atype: AType::Primitive(8), elems: vec![1, 2] },
        6 * 1024 * 1024,
    );
    // the primitive array's elements happen to equal no address; even if they
    // did, a primitive array has no outgoing edges
    let _ = through_prim;
    let mut vm = empty_vm();
    vm.stack.push(ref_array);
    vm.stack.push(prim_array);
    gc.mark_and_sweep(&vm);
    assert!(gc.find_index(ref_array).is_some());
    assert!(gc.find_index(prim_array).is_some());
    assert!(gc.find_index(through_ref).is_some());
    assert!(gc.find_index(through_prim).is_none());
}

#[test]
fn foreign_addresses_among_roots_are_ignored() {
    let mut gc = GC::new();
    let kept = gc.allocate(small_instance(), 11 * 1024 * 1024);
    let mut vm = empty_vm();
    vm.stack.push(kept);
    vm.stack.push(999_999_998);
    vm.stack.push(13);
    gc.mark_and_sweep(&vm);
    assert_eq!(gc.allocated_memory.len(), 1);
    assert!(gc.find_index(kept).is_some());
}

#[test]
fn facade_blocks_free_as_zero_bytes_and_the_counter_never_underflows() {
    let mut gc = GC::new();
    // a facade block freed later subtracts nothing from the counter
    gc.allocate(HeapObject::ObjectHeapObj, 6 * 1024 * 1024);
    gc.allocate(small_instance(), 6 * 1024 * 1024);
    let vm = empty_vm();
    gc.mark_and_sweep(&vm);
    assert_eq!(gc.allocated_memory.len(), 0);
    // only the instance's bytes left the counter: the facade's drift remains
    assert_eq!(gc.total_bytes(), 6 * 1024 * 1024);
}
