use brzozowski::regex::const_ptr::Const;
use brzozowski::regex::build_plan::literal;
use brzozowski::regex::{compile, Re};
use brzozowski::vec_alloc::VecAlloc;

#[test]
fn allocate_until_full() {
    let mut a: VecAlloc<u32> = VecAlloc::new(2);
    assert_eq!(a.allocate(7), Ok(0));
    assert_eq!(a.allocate(8), Ok(1));
    assert_eq!(a.allocate(9), Err(9));
    assert_eq!(a.len(), 2);
    assert_eq!(a.capacity(), 2);
    assert_eq!(*a.get(1), 8);
}

#[test]
fn resize_doubles_and_empties() {
    let mut a: VecAlloc<u32> = VecAlloc::new(3);
    a.allocate(1).unwrap();
    a.resize();
    assert_eq!(a.capacity(), 6);
    assert_eq!(a.len(), 0);
    let mut z: VecAlloc<u32> = VecAlloc::new(0);
    assert_eq!(z.allocate(5), Err(5));
    assert_eq!(z.resized().capacity(), 1);
    assert_eq!(z.allocate(5), Ok(0));
}

#[test]
fn handles() {
    let a = Const::new(3);
    assert!(a.ptr_eq(Const::new(3)));
    assert!(!a.ptr_eq(Const::new(4)));
    assert_eq!(Const::dangling().index, usize::MAX);
}

#[test]
fn arena_holds_the_tree() {
    let r = compile(&literal('q'));
    assert_eq!(r.arena().len(), 1);
    assert!(matches!(r.arena().get(0), Re::Literal('q')));
}

#[test]
fn clone_static_keeps_slots() {
    let r = compile(&brzozowski::regex::build_plan::star(literal('q')));
    let c = r.clone_static();
    assert_eq!(c.arena().len(), r.arena().len());
    assert_eq!(c.render(), "'q'*");
    assert!(c.is_match("qqq"));
}

#[test]
fn resized_grows_self() {
    let mut a: VecAlloc<u32> = VecAlloc::new(4);
    a.allocate(1).unwrap();
    a.resized().allocate(2).unwrap();
    assert_eq!(a.capacity(), 8);
    assert_eq!(a.len(), 1);
    assert_eq!(*a.get(0), 2);
}

#[test]
fn compile_allocates_one_node_per_plan_node() {
    let plan = brzozowski::regex::build_plan::alt(
        brzozowski::regex::build_plan::star(literal('a')),
        literal('b'),
    );
    assert_eq!(brzozowski::regex::plan_size(&plan), Some(4));
    let r = compile(&plan);
    assert_eq!(r.arena().len(), 4);
    assert_eq!(r.arena().capacity(), 32);
    let small = brzozowski::regex::compile_with_capacity(&plan, 1);
    assert_eq!(small.arena().len(), 4);
    assert_eq!(small.arena().capacity(), 4);
    let c = small.clone();
    assert_eq!(c.arena().len(), 4);
    assert_eq!(c.arena().capacity(), 4);
    let z = brzozowski::regex::compile_with_capacity(&plan, 0);
    assert_eq!(z.arena().capacity(), 4);
    assert_eq!(z.clone_static().arena().capacity(), 4);
}
