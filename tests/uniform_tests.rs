use uniforms::calculation::Calculation;
use uniforms::uniform::{GlSender, Transmission, Uniform, UniformError};

fn root(value: i32, observers: Vec<usize>) -> Uniform {
    Uniform::new(value, observers, None, None)
}

fn rule(inputs: Vec<usize>, mul: i32, div: i32) -> Calculation {
    Calculation::new(inputs, mul, div).unwrap()
}

fn values(uniforms: &Vec<Uniform>) -> Vec<i32> {
    uniforms.iter().map(|u| u.get()).collect()
}

#[test]
fn set_notifies_observers() {
    // u1 (index 0) = u2 / 2, u2 (index 1) observed by u1
    let mut us = vec![root(1, vec![]), root(1, vec![0])];
    us[0].set_calculation(rule(vec![1], 1, 2));
    assert!(Uniform::is_well_formed(&us));
    assert_eq!(Uniform::set(&mut us, 1, 7), Ok(()));
    assert_eq!(us[1].get(), 7);
    // integer division rounds toward zero
    assert_eq!(us[0].get(), 3);
}

#[test]
fn set_and_send_notifies_observers() {
    let mut us = vec![root(1, vec![]), root(1, vec![0])];
    us[0].set_calculation(rule(vec![1], 1, 2));
    let sent = Uniform::set_and_send(&mut us, 1, 7);
    assert!(sent.is_ok());
    assert_eq!(us[1].get(), 7);
    assert_eq!(us[0].get(), 3);
}

#[test]
fn partial_uniform_sets_observers() {
    // index 2 is the partial uniform observed by indices 0 and 1
    let mut us = vec![root(1, vec![]), root(1, vec![]), root(1, vec![0, 1])];
    us[0].set_calculation(rule(vec![2], 1, 5));
    us[1].set_calculation(rule(vec![2], 3, 1));
    assert_eq!(Uniform::set(&mut us, 2, 10), Ok(()));
    assert_eq!(us[0].get(), 2);
    assert_eq!(us[1].get(), 30);
}

#[test]
fn uniform_calls_sender() {
    let us = vec![Uniform::new(1, vec![], Some(rule(vec![], 1, 1)), Some(GlSender::new(4)))];
    let sent = Uniform::send(&us, 0).unwrap();
    assert_eq!(sent, vec![Transmission { uniform: 0, handle: 4, value: 1 }]);
}

#[test]
fn uniform_notifies_observers() {
    // the observer has no rule, so it keeps its value
    let mut us = vec![root(1, vec![]), root(1, vec![0])];
    assert_eq!(Uniform::set(&mut us, 1, 7), Ok(()));
    assert_eq!(us[1].get(), 7);
    assert_eq!(us[0].get(), 1);
}

#[test]
fn setting_uniform_notifies_observer() {
    let mut us = vec![root(1, vec![]), root(1, vec![])];
    us[0].set_calculation(rule(vec![1], 1, 2));
    us[1].set_observers(vec![0]);
    assert_eq!(Uniform::set(&mut us, 1, 7), Ok(()));
    assert_eq!(us[1].get(), 7);
    assert_eq!(us[0].get(), 3);
}

#[test]
fn diamond_recomputes_along_each_path() {
    // u1 (0) = (u2 + u3) / 2, u2 (1) = u3 * 3, u3 (2) root
    let mut us = vec![root(1, vec![]), root(1, vec![0]), root(1, vec![0, 1])];
    us[0].set_calculation(rule(vec![1, 2], 1, 2));
    us[1].set_calculation(rule(vec![2], 3, 1));
    assert_eq!(Uniform::set(&mut us, 2, 7), Ok(()));
    assert_eq!(values(&us), vec![14, 21, 7]);
}

#[test]
fn diamond_first_visit_sees_stale_input() {
    // u1 observes only u3, so its one recomputation runs before u2 changes
    let mut us = vec![root(1, vec![]), root(1, vec![]), root(1, vec![0, 1])];
    us[0].set_calculation(rule(vec![1, 2], 1, 2));
    us[1].set_calculation(rule(vec![2], 3, 1));
    assert_eq!(Uniform::set(&mut us, 2, 7), Ok(()));
    assert_eq!(values(&us), vec![4, 21, 7]);
}

#[test]
fn root_keeps_value_when_dependents_change() {
    let mut us = vec![root(5, vec![1]), root(0, vec![]), root(9, vec![1])];
    us[1].set_calculation(rule(vec![0, 2], 1, 1));
    assert_eq!(Uniform::set(&mut us, 0, 6), Ok(()));
    assert_eq!(values(&us), vec![6, 15, 9]);
}

#[test]
fn send_lists_depth_first_and_skips_partial() {
    let mut us = vec![
        Uniform::new(1, vec![1, 2], None, None),
        Uniform::new(2, vec![2], None, Some(GlSender::new(11))),
        Uniform::new(3, vec![], None, Some(GlSender::new(12))),
    ];
    let sent = Uniform::send(&us, 0).unwrap();
    assert_eq!(
        sent,
        vec![
            Transmission { uniform: 1, handle: 11, value: 2 },
            Transmission { uniform: 2, handle: 12, value: 3 },
            Transmission { uniform: 2, handle: 12, value: 3 },
        ]
    );
    us[0].set_gl_sender(Some(GlSender::new(10)));
    let sent = Uniform::send(&us, 0).unwrap();
    assert_eq!(sent[0], Transmission { uniform: 0, handle: 10, value: 1 });
    assert_eq!(sent.len(), 4);
}

#[test]
fn send_twice_gives_the_same() {
    let mut us = vec![root(1, vec![1]), Uniform::new(0, vec![], None, Some(GlSender::new(3)))];
    us[1].set_calculation(rule(vec![0], 2, 1));
    let first = Uniform::set_and_send(&mut us, 0, 4).unwrap();
    let before = values(&us);
    let second = Uniform::send(&us, 0).unwrap();
    let third = Uniform::send(&us, 0).unwrap();
    assert_eq!(first, vec![Transmission { uniform: 1, handle: 3, value: 8 }]);
    assert_eq!(second, first);
    assert_eq!(third, first);
    assert_eq!(values(&us), before);
}

#[test]
fn cycle_is_reported_and_nothing_changes() {
    let mut us = vec![root(1, vec![1]), root(2, vec![0]), root(3, vec![0])];
    us[0].set_calculation(rule(vec![1, 2], 1, 1));
    us[1].set_calculation(rule(vec![0], 1, 1));
    assert_eq!(Uniform::set(&mut us, 2, 10), Err(UniformError::CyclicDependency));
    assert_eq!(values(&us), vec![1, 2, 3]);
    assert_eq!(Uniform::send(&us, 2), Err(UniformError::CyclicDependency));
    assert_eq!(Uniform::set_and_send(&mut us, 2, 10), Err(UniformError::CyclicDependency));
    assert_eq!(values(&us), vec![1, 2, 3]);
}

#[test]
fn cycle_through_a_root_ends_at_the_root() {
    let mut us = vec![root(1, vec![1]), root(2, vec![0])];
    us[1].set_calculation(rule(vec![0], 2, 1));
    assert_eq!(Uniform::set(&mut us, 0, 5), Ok(()));
    assert_eq!(values(&us), vec![5, 10]);
    assert_eq!(Uniform::send(&us, 0), Err(UniformError::CyclicDependency));
}

#[test]
fn calculation_rounds_and_saturates() {
    let c = rule(vec![0, 1], 1, 2);
    assert_eq!(c.eval(&vec![-4, -3]), -3);
    assert_eq!(rule(vec![0], 3, 1).eval(&vec![i32::MAX]), i32::MAX);
    assert_eq!(rule(vec![0, 1], 2, 1).eval(&vec![i32::MIN, i32::MIN]), i32::MIN);
    assert_eq!(rule(vec![0, 1, 2], -1, 3).eval(&vec![3, 4, 5]), -4);
    assert_eq!(rule(vec![], 5, 1).eval(&vec![]), 0);
}

#[test]
fn calculation_needs_positive_divisor() {
    assert!(Calculation::new(vec![0], 1, 0).is_none());
    assert!(Calculation::new(vec![0], 1, -2).is_none());
    let c = Calculation::new(vec![0], 4, 3).unwrap();
    assert_eq!((c.inputs.clone(), c.mul, c.div), (vec![0], 4, 3));
}

#[test]
fn well_formedness_rejects_dangling_indices() {
    let mut us = vec![root(1, vec![1]), root(1, vec![])];
    assert!(Uniform::is_well_formed(&us));
    us[1].set_observers(vec![2]);
    assert!(!Uniform::is_well_formed(&us));
    us[1].set_observers(vec![0]);
    us[0].set_calculation(rule(vec![5], 1, 1));
    assert!(!Uniform::is_well_formed(&us));
    let bad = Calculation { inputs: vec![1], mul: 1, div: 0 };
    us[0].set_calculation(bad);
    assert!(!Uniform::is_well_formed(&us));
}

#[test]
fn notify_recomputes_from_the_rule() {
    let mut us = vec![root(4, vec![1]), root(0, vec![2]), root(0, vec![])];
    us[1].set_calculation(rule(vec![0], 1, 2));
    us[2].set_calculation(rule(vec![1], 5, 1));
    assert_eq!(Uniform::notify(&mut us, 1), Ok(()));
    assert_eq!(values(&us), vec![4, 2, 10]);
    // a root is left as it is
    assert_eq!(Uniform::notify(&mut us, 0), Ok(()));
    assert_eq!(values(&us), vec![4, 2, 10]);
}
