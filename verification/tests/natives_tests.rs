use ferrugo_core::gc::GC;
use ferrugo_core::heap::{AType, HeapObject};
use ferrugo_core::native_functions::{
    ferrugo_internal_aaload, ferrugo_internal_baload, ferrugo_internal_bastore,
    ferrugo_internal_new, format_i32, java_lang_string_name,
    java_lang_stringbuilder_append_i_stringbuilder,
    java_lang_stringbuilder_append_string_stringbuilder,
    java_lang_stringbuilder_tostring_string, native_functions, NativeMethod, VariableType,
};
use ferrugo_core::Word;

/// A heap seeded with the string class, a class heap that registers it, and
/// a runtime environment: what the interpreter would set up before any
/// trampoline runs.
fn runtime_with_string_class() -> (GC, Word, Word) {
    let mut gc = GC::new();
    let string_class = gc.allocate(
        HeapObject::ClassObj {
            instance_fields: 1,
            static_variables: vec![],
            constant_pool: vec![],
        },
        64,
    );
    let classheap = gc.allocate(
        HeapObject::ClassHeapObj { class_map: vec![(java_lang_string_name(), string_class)] },
        32,
    );
    let objectheap = gc.allocate(HeapObject::ObjectHeapObj, 32);
    let env = gc.allocate(
        HeapObject::RuntimeEnvironmentObj { classheap, objectheap },
        32,
    );
    (gc, env, classheap)
}

#[test]
fn println_of_forty_two_writes_its_decimal_digits() {
    // the host writes this line followed by a newline to standard output
    assert_eq!(format_i32(42), b"42".to_vec());
}

#[test]
fn format_i32_covers_zero_negatives_and_the_extremes() {
    assert_eq!(format_i32(0), b"0".to_vec());
    assert_eq!(format_i32(7), b"7".to_vec());
    assert_eq!(format_i32(-1), b"-1".to_vec());
    assert_eq!(format_i32(-10), b"-10".to_vec());
    assert_eq!(format_i32(1024), b"1024".to_vec());
    assert_eq!(format_i32(i32::MAX), b"2147483647".to_vec());
    assert_eq!(format_i32(i32::MIN), b"-2147483648".to_vec());
}

#[test]
fn byte_array_round_trip() {
    let (mut gc, env, _) = runtime_with_string_class();
    let a = gc.allocate(
        HeapObject::ArrayObj { atype: AType::Primitive(8), elems: vec![0, 0, 0, 0] },
        36,
    );
    ferrugo_internal_bastore(&mut gc, env, a, 0, 7);
    ferrugo_internal_bastore(&mut gc, env, a, 1, 255);
    assert_eq!(ferrugo_internal_baload(&gc, env, a, 0), 7);
    assert_eq!(ferrugo_internal_baload(&gc, env, a, 1), 255);
    assert_eq!(ferrugo_internal_baload(&gc, env, a, 2), 0);
}

#[test]
fn byte_store_narrows_to_a_byte() {
    let (mut gc, env, _) = runtime_with_string_class();
    let a = gc.allocate(
        HeapObject::ArrayObj { atype: AType::Primitive(8), elems: vec![0] },
        33,
    );
    ferrugo_internal_bastore(&mut gc, env, a, 0, 256 + 5);
    assert_eq!(ferrugo_internal_baload(&gc, env, a, 0), 5);
}

#[test]
fn pointer_array_elements_load_verbatim() {
    let (mut gc, env, _) = runtime_with_string_class();
    let target = gc.allocate(HeapObject::Instance { class: 0, variables: vec![] }, 32);
    let a = gc.allocate(
        HeapObject::ArrayObj { atype: AType::Class(0), elems: vec![target, 0] },
        48,
    );
    assert_eq!(ferrugo_internal_aaload(&gc, env, a, 0), target);
    assert_eq!(ferrugo_internal_aaload(&gc, env, a, 1), 0);
}

#[test]
fn internal_new_allocates_a_zeroed_instance() {
    let (mut gc, env, _) = runtime_with_string_class();
    let class = gc.allocate(
        HeapObject::ClassObj {
            instance_fields: 3,
            static_variables: vec![],
            constant_pool: vec![],
        },
        64,
    );
    let obj = ferrugo_internal_new(&mut gc, env, class);
    let i = gc.find_index(obj).expect("the new instance is registered");
    match &gc.allocated_memory[i].obj {
        HeapObject::Instance { class: c, variables } => {
            assert_eq!(*c, class);
            assert_eq!(variables, &vec![0, 0, 0]);
        }
        _ => panic!("wrong kind"),
    }
}

#[test]
fn string_interning_stores_the_payload_in_slot_zero() {
    let (mut gc, _, classheap) = runtime_with_string_class();
    let s = gc.create_string_object(b"hello".to_vec(), classheap);
    assert_eq!(gc.get_string(s), b"hello".to_vec());
}

#[test]
fn class_lookup_finds_first_match_and_misses_cleanly() {
    let (gc, _, classheap) = runtime_with_string_class();
    let name = java_lang_string_name();
    assert!(gc.get_class(classheap, &name).is_some());
    assert!(gc.get_class(classheap, &b"java/lang/Object".to_vec()).is_none());
}

#[test]
fn stringbuilder_chain_appends_in_order() {
    let (mut gc, env, classheap) = runtime_with_string_class();
    let builder_class = gc.allocate(
        HeapObject::ClassObj {
            instance_fields: 1,
            static_variables: vec![],
            constant_pool: vec![],
        },
        64,
    );
    let sb = ferrugo_internal_new(&mut gc, env, builder_class);
    java_lang_stringbuilder_append_i_stringbuilder(&mut gc, env, sb, 1);
    let x = gc.create_string_object(b"x".to_vec(), classheap);
    java_lang_stringbuilder_append_string_stringbuilder(&mut gc, env, sb, x);
    let chained = java_lang_stringbuilder_append_i_stringbuilder(&mut gc, env, sb, 2);
    assert_eq!(chained, sb);
    let s = java_lang_stringbuilder_tostring_string(&gc, env, sb);
    assert_eq!(gc.get_string(s), b"1x2".to_vec());
}

#[test]
fn append_to_a_fresh_builder_lazily_interns() {
    let (mut gc, env, _) = runtime_with_string_class();
    let builder_class = gc.allocate(
        HeapObject::ClassObj {
            instance_fields: 1,
            static_variables: vec![],
            constant_pool: vec![],
        },
        64,
    );
    // slot 0 of the new builder is 0: no constructor ran
    let sb = ferrugo_internal_new(&mut gc, env, builder_class);
    java_lang_stringbuilder_append_i_stringbuilder(&mut gc, env, sb, 42);
    let s = java_lang_stringbuilder_tostring_string(&gc, env, sb);
    assert_ne!(s, 0);
    assert_eq!(gc.get_string(s), b"42".to_vec());
}

#[test]
fn tostring_returns_slot_zero_verbatim() {
    let (mut gc, env, classheap) = runtime_with_string_class();
    let s = gc.create_string_object(b"abc".to_vec(), classheap);
    let holder = gc.allocate(HeapObject::Instance { class: 0, variables: vec![s] }, 32);
    assert_eq!(java_lang_stringbuilder_tostring_string(&gc, env, holder), s);
}

#[test]
fn the_catalog_holds_all_seventeen_names() {
    let catalog = native_functions();
    assert_eq!(catalog.len(), 17);
    let names: Vec<&str> = catalog.iter().map(|m| m.descriptor()).collect();
    assert!(names.contains(&"java/io/PrintStream.println:(I)V"));
    assert!(names.contains(&"java/lang/StringBuilder.append:(I)Ljava/lang/StringBuilder;"));
    assert!(names.contains(&"java/lang/Math.pow:(DD)D"));
    assert!(names.contains(&"ferrugo_internal_new"));
    assert!(names.contains(&"ferrugo_internal_bastore"));
}

#[test]
fn declared_signatures_match_the_table() {
    let sig = NativeMethod::PrintlnI.signature();
    assert_eq!(sig.ret, VariableType::Void);
    assert_eq!(
        sig.params,
        vec![VariableType::Pointer, VariableType::Pointer, VariableType::Int]
    );
    let sig = NativeMethod::Pow.signature();
    assert_eq!(sig.ret, VariableType::Double);
    assert_eq!(
        sig.params,
        vec![VariableType::Pointer, VariableType::Double, VariableType::Double]
    );
    let sig = NativeMethod::InternalBastore.signature();
    assert_eq!(sig.ret, VariableType::Void);
    assert_eq!(
        sig.params,
        vec![VariableType::Pointer, VariableType::Pointer, VariableType::Int, VariableType::Int]
    );
}

#[test]
fn every_trampoline_takes_the_environment_first() {
    for m in native_functions() {
        let sig = m.signature();
        assert!(sig.params.len() >= 1);
        assert_eq!(sig.params[0], VariableType::Pointer);
    }
}

#[test]
fn four_math_entries_are_declared_but_never_bound() {
    let unbound: Vec<&str> = native_functions()
        .into_iter()
        .filter(|m| !m.is_bound())
        .map(|m| m.descriptor())
        .collect();
    assert_eq!(
        unbound,
        vec![
            "java/lang/Math.sqrt:(D)D",
            "java/lang/Math.cos:(D)D",
            "java/lang/Math.tan:(D)D",
            "java/lang/Math.abs:(D)D"
        ]
    );
}
