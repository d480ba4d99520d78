use trailing::context::Trail;
use trailing::reversible::Reversible;

#[test]
fn test_ok() {
    let mut trail = Trail::new();
    let mut a = Reversible::new(&mut trail, 0);

    assert_eq!(trail.level(), 0);
    assert_eq!(a.get_value(&trail), 0);

    trail.push();
    assert_eq!(trail.level(), 1);
    assert_eq!(a.get_value(&trail), 0);

    a.set_value(&mut trail, 1);
    assert_eq!(a.get_value(&trail), 1);

    trail.push();
    assert_eq!(trail.level(), 2);
    assert_eq!(a.get_value(&trail), 1);

    a.set_value(&mut trail, 2);
    assert_eq!(a.get_value(&trail), 2);

    a.set_value(&mut trail, 42);
    assert_eq!(a.get_value(&trail), 42);

    trail.pop();
    assert_eq!(a.get_value(&trail), 1);
    assert_eq!(trail.level(), 1);

    trail.pop();
    assert_eq!(a.get_value(&trail), 0);
    assert_eq!(trail.level(), 0);
}

#[test]
fn test_dynamic() {
    let seed: isize = rand::random();

    let mut trail = Trail::new();
    let mut a = Reversible::new(&mut trail, seed);

    trail.push();
    a.set_value(&mut trail, 42);
    trail.pop();

    assert_eq!(seed, a.get_value(&trail));
}

#[test]
fn test_boolean() {
    let seed: isize = rand::random();

    let mut trail = Trail::new();
    let mut a = Reversible::new(&mut trail, seed % 2 == 0);

    trail.push();
    a.set_value(&mut trail, false);
    trail.pop();

    assert_eq!(seed % 2 == 0, a.get_value(&trail));
}

#[test]
fn test_str() {
    let mut trail = Trail::new();
    let mut a = Reversible::new(&mut trail, "Coucou");
    assert_eq!("Coucou", a.get_value(&trail));

    trail.push();
    a.set_value(&mut trail, "je vais dormir");
    trail.push();
    a.set_value(&mut trail, "maintenant");

    assert_eq!("maintenant", a.get_value(&trail));
    trail.pop_all();
    assert_eq!("Coucou", a.get_value(&trail));
}

#[test]
fn new_cell_takes_the_next_slot_and_holds_its_initial_value() {
    let mut trail = Trail::new();
    let a = Reversible::new(&mut trail, 7u8);
    let b = Reversible::new(&mut trail, 9u8);
    assert_eq!(trail.slots(), 2);
    assert_eq!(a.get_value(&trail), 7);
    assert_eq!(b.get_value(&trail), 9);
    assert_eq!(trail.load(0), 7);
    assert_eq!(trail.load(1), 9);
    assert_eq!(trail.pending(), 0);
    assert_eq!(trail.clock(), 0);
}

#[test]
fn set_value_returns_the_value_held_afterwards() {
    let mut trail = Trail::new();
    let mut a = Reversible::new(&mut trail, 3i64);
    assert_eq!(a.set_value(&mut trail, 3), 3);
    assert_eq!(a.set_value(&mut trail, -8), -8);
    assert_eq!(a.get_value(&trail), -8);
}

#[test]
fn writing_the_current_value_adds_nothing_to_the_log() {
    let mut trail = Trail::new();
    let mut a = Reversible::new(&mut trail, 5u32);
    trail.push();
    assert_eq!(trail.pending(), 0);
    a.set_value(&mut trail, 5);
    assert_eq!(trail.pending(), 0);
    a.set_value(&mut trail, 6);
    assert_eq!(trail.pending(), 1);
    a.set_value(&mut trail, 6);
    assert_eq!(trail.pending(), 1);
    assert_eq!(trail.clock(), 1);
}

#[test]
fn writes_before_the_first_checkpoint_are_not_logged() {
    let mut trail = Trail::new();
    let mut a = Reversible::new(&mut trail, 1u32);
    a.set_value(&mut trail, 2);
    a.set_value(&mut trail, 3);
    assert_eq!(trail.pending(), 0);
    assert_eq!(a.get_value(&trail), 3);
}

#[test]
fn many_writes_in_one_checkpoint_register_one_action() {
    let mut trail = Trail::new();
    let mut a = Reversible::new(&mut trail, 10u32);
    trail.push();
    a.set_value(&mut trail, 11);
    a.set_value(&mut trail, 12);
    a.set_value(&mut trail, 13);
    a.set_value(&mut trail, 14);
    assert_eq!(trail.pending(), 1);
    trail.pop();
    assert_eq!(a.get_value(&trail), 10);
    assert_eq!(trail.pending(), 0);
}

#[test]
fn each_checkpoint_gets_its_own_action() {
    let mut trail = Trail::new();
    let mut a = Reversible::new(&mut trail, 0u32);
    trail.push();
    a.set_value(&mut trail, 1);
    trail.push();
    a.set_value(&mut trail, 2);
    trail.push();
    a.set_value(&mut trail, 3);
    assert_eq!(trail.pending(), 3);
    trail.pop();
    assert_eq!(a.get_value(&trail), 2);
    assert_eq!(trail.pending(), 2);
}

#[test]
fn a_cell_registers_again_once_the_clock_has_ticked() {
    let mut trail = Trail::new();
    let mut a = Reversible::new(&mut trail, 0u32);
    trail.push();
    a.set_value(&mut trail, 1);
    assert_eq!(trail.pending(), 1);
    trail.push();
    trail.pop();
    a.set_value(&mut trail, 2);
    assert_eq!(trail.pending(), 2);
    assert_eq!(trail.level(), 1);
    trail.pop();
    assert_eq!(a.get_value(&trail), 0);
    assert_eq!(trail.pending(), 0);
}

#[test]
fn a_cell_created_inside_a_checkpoint_logs_from_the_next_tick_on() {
    let mut trail = Trail::new();
    trail.push();
    let mut a = Reversible::new(&mut trail, 0u32);
    a.set_value(&mut trail, 1);
    assert_eq!(trail.pending(), 0);
    trail.push();
    a.set_value(&mut trail, 2);
    assert_eq!(trail.pending(), 1);
    trail.pop();
    assert_eq!(a.get_value(&trail), 1);
    trail.pop();
    assert_eq!(a.get_value(&trail), 1);
    assert_eq!(trail.level(), 0);
}

#[test]
fn two_cells_are_restored_whichever_registers_first() {
    let mut trail = Trail::new();
    let mut a = Reversible::new(&mut trail, 'a');
    let mut b = Reversible::new(&mut trail, 'b');

    trail.push();
    a.set_value(&mut trail, 'x');
    b.set_value(&mut trail, 'y');
    a.set_value(&mut trail, 'z');
    assert_eq!(trail.pending(), 2);
    trail.pop();
    assert_eq!(a.get_value(&trail), 'a');
    assert_eq!(b.get_value(&trail), 'b');

    trail.push();
    b.set_value(&mut trail, 'y');
    a.set_value(&mut trail, 'x');
    b.set_value(&mut trail, 'w');
    assert_eq!(trail.pending(), 2);
    trail.pop();
    assert_eq!(a.get_value(&trail), 'a');
    assert_eq!(b.get_value(&trail), 'b');
    assert_eq!(trail.level(), 0);
}

#[test]
fn an_untouched_cell_keeps_its_value_across_a_pop() {
    let mut trail = Trail::new();
    let mut a = Reversible::new(&mut trail, 1u16);
    let b = Reversible::new(&mut trail, 2u16);
    trail.push();
    a.set_value(&mut trail, 100);
    trail.pop();
    assert_eq!(a.get_value(&trail), 1);
    assert_eq!(b.get_value(&trail), 2);
}

#[test]
fn pop_all_restores_the_values_of_level_zero() {
    let mut trail = Trail::new();
    let mut a = Reversible::new(&mut trail, 1i32);
    let mut b = Reversible::new(&mut trail, 2i32);
    a.set_value(&mut trail, 10);

    trail.push();
    a.set_value(&mut trail, 11);
    trail.push();
    b.set_value(&mut trail, 21);
    trail.push();
    a.set_value(&mut trail, 12);
    b.set_value(&mut trail, 22);
    trail.push();
    assert_eq!(trail.level(), 4);

    trail.pop_all();
    assert_eq!(trail.level(), 0);
    assert_eq!(a.get_value(&trail), 10);
    assert_eq!(b.get_value(&trail), 2);
    assert_eq!(trail.pending(), 0);
    assert_eq!(trail.clock(), 8);
}

#[test]
fn single_level_round_trip() {
    let mut trail = Trail::new();
    let mut a = Reversible::new(&mut trail, 17u64);
    trail.push();
    trail.push();
    let level = trail.level();
    let value = a.get_value(&trail);

    trail.push();
    a.set_value(&mut trail, 1);
    trail.pop();

    assert_eq!(a.get_value(&trail), value);
    assert_eq!(trail.level(), level);
    assert_eq!(a.get_value(&trail), 17);
    assert_eq!(trail.level(), 2);
}

#[test]
fn is_cell_of_tells_a_cell_from_a_stranger() {
    let mut small: Trail<u8> = Trail::new();
    let mut large: Trail<u8> = Trail::new();
    let first = Reversible::new(&mut large, 1);
    let second = Reversible::new(&mut large, 2);
    assert!(first.is_cell_of(&large));
    assert!(second.is_cell_of(&large));
    assert!(!first.is_cell_of(&small));

    let own = Reversible::new(&mut small, 3);
    assert!(own.is_cell_of(&small));
    assert!(first.is_cell_of(&small));
    assert!(!second.is_cell_of(&small));

    large.push();
    let late = Reversible::new(&mut large, 4);
    assert!(late.is_cell_of(&large));
    small.allot(0);
    small.allot(0);
    assert!(!late.is_cell_of(&small));
}

#[test]
fn overwrite_saves_and_writes_without_comparing() {
    let mut trail = Trail::new();
    let mut a = Reversible::new(&mut trail, 5u32);
    trail.push();
    assert_eq!(a.overwrite(&mut trail, 5), 5);
    assert_eq!(trail.pending(), 1);
    assert_eq!(a.overwrite(&mut trail, 6), 6);
    assert_eq!(trail.pending(), 1);
    assert_eq!(a.get_value(&trail), 6);
    trail.pop();
    assert_eq!(a.get_value(&trail), 5);
    assert_eq!(trail.pending(), 0);
}
