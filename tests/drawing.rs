use std::cell::Cell;
use std::collections::HashMap;
use std::rc::Rc;

use stardust_staging::destroy_queue::DestroyQueue;
use stardust_staging::model::{begin_realizations, draw_all, finish_realization_of, retire, DrawStep, Model};
use stardust_staging::registry::Registry;
use stardust_staging::surface::{retire_surface, CoreSurface};

type Steps = Vec<DrawStep<u32, i32>>;

fn realized(slots: u32) -> (Registry<Model<u32, u32, i32>>, u64) {
    let mut reg = Registry::new();
    let id = Model::add_to(&mut reg, Some("cube.glb".to_string()));
    let asked = begin_realizations(&mut reg);
    assert_eq!(asked, vec![(id, "cube.glb".to_string())]);
    let mut q = DestroyQueue::new();
    finish_realization_of(&mut reg, &mut q, id, Some((77, slots)));
    assert_eq!(q.len(), 0);
    (reg, id)
}

fn param_steps(steps: &Steps) -> Vec<(u32, String, i32)> {
    steps
        .iter()
        .filter_map(|s| match s {
            DrawStep::SetParameter { slot, name, value } => Some((*slot, name.clone(), *value)),
            _ => None,
        })
        .collect()
}

#[test]
fn last_parameter_write_wins() {
    let (mut reg, id) = realized(2);
    for v in [1, 2, 3] {
        reg.member_mut(0).set_material_parameter(1, "color".to_string(), v);
    }
    let frame = draw_all(&mut reg);
    assert_eq!(frame[0].0, id);
    assert_eq!(param_steps(&frame[0].1), vec![(1, "color".to_string(), 3)]);
    let again = draw_all(&mut reg);
    assert!(param_steps(&again[0].1).is_empty());
}

#[test]
fn two_writers_same_key_later_wins() {
    let (mut reg, _) = realized(1);
    reg.member_mut(0).set_material_parameter(0, "tint".to_string(), 10);
    reg.member_mut(0).set_material_parameter(0, "tint".to_string(), 20);
    let frame = draw_all(&mut reg);
    assert_eq!(param_steps(&frame[0].1), vec![(0, "tint".to_string(), 20)]);
}

#[test]
fn parameters_for_missing_slots_are_dropped() {
    let (mut reg, _) = realized(1);
    reg.member_mut(0).set_material_parameter(0, "a".to_string(), 1);
    reg.member_mut(0).set_material_parameter(4, "b".to_string(), 2);
    let frame = draw_all(&mut reg);
    assert_eq!(param_steps(&frame[0].1), vec![(0, "a".to_string(), 1)]);
    assert_eq!(reg.member(0).enabled(), true);
}

#[test]
fn replacements_consumed_once_in_order() {
    let (mut reg, _) = realized(2);
    reg.member_mut(0).replace_material(1, 100);
    reg.member_mut(0).replace_material(5, 101);
    reg.member_mut(0).replace_material(0, 102);
    reg.member_mut(0).set_material_parameter(0, "p".to_string(), 9);
    let frame = draw_all(&mut reg);
    assert_eq!(
        frame[0].1,
        vec![
            DrawStep::AssignMaterial { slot: 1, material: 100 },
            DrawStep::AssignMaterial { slot: 0, material: 102 },
            DrawStep::SetParameter { slot: 0, name: "p".to_string(), value: 9 },
            DrawStep::Submit,
        ]
    );
    let next = draw_all(&mut reg);
    assert_eq!(next[0].1, vec![DrawStep::Submit]);
}

#[test]
fn disabled_model_keeps_staged_mutations() {
    let (mut reg, _) = realized(1);
    reg.member_mut(0).set_enabled(false);
    reg.member_mut(0).replace_material(0, 5);
    let frame = draw_all(&mut reg);
    assert!(frame[0].1.is_empty());
    reg.member_mut(0).set_enabled(true);
    let frame = draw_all(&mut reg);
    assert_eq!(
        frame[0].1,
        vec![DrawStep::AssignMaterial { slot: 0, material: 5 }, DrawStep::Submit]
    );
}

#[test]
fn missing_resource_is_never_constructed() {
    let mut reg: Registry<Model<u32, u32, i32>> = Registry::new();
    let _id = Model::add_to(&mut reg, None);
    reg.member_mut(0).set_material_parameter(0, "x".to_string(), 1);
    let mut requests = 0;
    for _ in 0..1000 {
        requests += begin_realizations(&mut reg).len();
        let frame = draw_all(&mut reg);
        assert!(frame[0].1.is_empty());
    }
    assert_eq!(requests, 0);
    assert!(!reg.member(0).is_realized());
}

#[test]
fn failed_construction_is_not_retried() {
    let mut reg: Registry<Model<u32, u32, i32>> = Registry::new();
    let id = Model::add_to(&mut reg, Some("broken.glb".to_string()));
    assert_eq!(begin_realizations(&mut reg).len(), 1);
    assert!(reg.member(0).is_constructing());
    let mut q = DestroyQueue::new();
    finish_realization_of(&mut reg, &mut q, id, None);
    for _ in 0..1000 {
        assert!(begin_realizations(&mut reg).is_empty());
        assert!(draw_all(&mut reg)[0].1.is_empty());
    }
}

#[test]
fn late_construction_result_goes_to_destroy_queue() {
    let mut reg: Registry<Model<u32, u32, i32>> = Registry::new();
    let id = Model::add_to(&mut reg, Some("m.glb".to_string()));
    begin_realizations(&mut reg);
    let mut q = DestroyQueue::new();
    assert!(retire(&mut reg, &mut q, id));
    assert_eq!(q.len(), 0);
    finish_realization_of(&mut reg, &mut q, id, Some((9, 1)));
    assert_eq!(q.drain(), vec![9]);
}

struct Gpu(Rc<Cell<u32>>);
impl Drop for Gpu {
    fn drop(&mut self) {
        self.0.set(self.0.get() + 1);
    }
}

#[test]
fn retiring_defers_destruction_to_drain() {
    let destroyed = Rc::new(Cell::new(0));
    let mut reg: Registry<Model<Gpu, u32, i32>> = Registry::new();
    let id = Model::add_to(&mut reg, Some("m.glb".to_string()));
    begin_realizations(&mut reg);
    let mut q = DestroyQueue::new();
    finish_realization_of(&mut reg, &mut q, id, Some((Gpu(destroyed.clone()), 1)));
    assert!(reg.member(0).resource().is_some());
    assert!(retire(&mut reg, &mut q, id));
    assert!(!retire(&mut reg, &mut q, id));
    assert_eq!(destroyed.get(), 0);
    assert_eq!(q.len(), 1);
    let drained = q.drain();
    assert_eq!(destroyed.get(), 0);
    drop(drained);
    assert_eq!(destroyed.get(), 1);
}

#[test]
fn surface_offset_passed_on_only_when_changed() {
    let mut models: Registry<Model<u32, u32, i32>> = Registry::new();
    let mut s: CoreSurface<u8, u32> = CoreSurface::new();
    s.set_material_offset(3);
    assert_eq!(s.process(Some((4, 4)), &mut models), None);
    assert!(s.needs_resources());
    assert_eq!(s.install_resources(1, 50), None);
    assert_eq!(s.install_resources(2, 60), Some((2, 60)));
    assert_eq!(s.process(None, &mut models), None);
    assert_eq!(s.size(), None);
    assert_eq!(s.process(Some((640, 480)), &mut models), Some(3));
    assert_eq!(s.size(), Some((640, 480)));
    assert_eq!(s.process(Some((640, 480)), &mut models), None);
    s.set_material_offset(3);
    assert_eq!(s.process(Some((640, 480)), &mut models), None);
    s.set_material_offset(8);
    assert_eq!(s.process(Some((640, 480)), &mut models), Some(8));
}

#[test]
fn retiring_surface_queues_texture_and_material() {
    let mut surfaces: Registry<CoreSurface<u8, u32>> = Registry::new();
    let mut s = CoreSurface::new();
    s.install_resources(7, 70);
    let id = surfaces.add(s);
    let mut texs = DestroyQueue::new();
    let mut mats = DestroyQueue::new();
    assert!(retire_surface(&mut surfaces, &mut texs, &mut mats, id));
    assert_eq!(texs.drain(), vec![7]);
    assert_eq!(mats.drain(), vec![70]);
    assert!(!retire_surface(&mut surfaces, &mut texs, &mut mats, id));
}

/// A stand-in for the graphics side: materials are parameter tables, shared
/// by reference, and each model slot points at one.
type Mat = Rc<std::cell::RefCell<HashMap<String, i32>>>;

fn run(slots: &mut Vec<Mat>, steps: Vec<DrawStep<Mat, i32>>) {
    for step in steps {
        match step {
            DrawStep::AssignMaterial { slot, material } => slots[slot as usize] = material,
            DrawStep::SetParameter { slot, name, value } => {
                let copy = Rc::new(std::cell::RefCell::new(slots[slot as usize].borrow().clone()));
                copy.borrow_mut().insert(name, value);
                slots[slot as usize] = copy;
            }
            DrawStep::Submit => {}
        }
    }
}

#[test]
fn shared_surface_material_is_copied_on_write() {
    let mut models: Registry<Model<u32, Mat, i32>> = Registry::new();
    let a = Model::add_to(&mut models, Some("a.glb".to_string()));
    let b = Model::add_to(&mut models, Some("b.glb".to_string()));
    begin_realizations(&mut models);
    let mut q = DestroyQueue::new();
    finish_realization_of(&mut models, &mut q, a, Some((1, 1)));
    finish_realization_of(&mut models, &mut q, b, Some((2, 1)));
    let base: Mat = Rc::new(std::cell::RefCell::new(HashMap::new()));
    let mut gpu_a = vec![base.clone()];
    let mut gpu_b = vec![base.clone()];

    let shared: Mat = Rc::new(std::cell::RefCell::new(HashMap::from([("alpha".to_string(), 1)])));
    let mut surface: CoreSurface<u8, Mat> = CoreSurface::new();
    surface.install_resources(0, shared.clone());
    surface.apply_material(a, 0);
    surface.apply_material(b, 0);
    surface.apply_material(999, 0);
    assert_eq!(surface.process(Some((1, 1)), &mut models), None);

    models.member_mut(0).set_material_parameter(0, "alpha".to_string(), 5);
    let frame = draw_all(&mut models);
    let mut frame = frame.into_iter();
    run(&mut gpu_a, frame.next().unwrap().1);
    run(&mut gpu_b, frame.next().unwrap().1);

    assert_eq!(gpu_a[0].borrow().get("alpha"), Some(&5));
    assert_eq!(gpu_b[0].borrow().get("alpha"), Some(&1));
    assert!(Rc::ptr_eq(&gpu_b[0], &shared));
    assert_eq!(shared.borrow().get("alpha"), Some(&1));
}
