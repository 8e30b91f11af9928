use asset_systems::registrar::{Diagnostic, Registrar};
use asset_systems::table::{Entry, RegistrationTable, RoutineHandle, TypeKey};

#[test]
fn table_starts_empty() {
    let table = RegistrationTable::new();
    assert_eq!(table.len(), 0);
    assert!(!table.contains(TypeKey::new(0)));
    assert!(table.iterate().is_empty());
}

#[test]
fn table_insert_then_lookup() {
    let mut table = RegistrationTable::new();
    let key = TypeKey::new(7);
    let handle = RoutineHandle { id: 0 };
    table.insert(key, handle);
    assert_eq!(table.len(), 1);
    assert!(table.contains(key));
    assert!(!table.contains(TypeKey::new(8)));
    assert_eq!(table.iterate(), vec![Entry { key, handle }]);
}

#[test]
fn table_iterates_in_insertion_order() {
    let mut table = RegistrationTable::new();
    let first = TypeKey::new(3);
    let second = TypeKey::new(1);
    table.insert(first, RoutineHandle { id: 0 });
    table.insert(second, RoutineHandle { id: 1 });
    let snapshot = table.iterate();
    assert_eq!(snapshot.len(), 2);
    assert_eq!(snapshot[0].key, first);
    assert_eq!(snapshot[1].key, second);
}

#[test]
fn type_keys_compare_by_id() {
    assert_eq!(TypeKey::new(1), TypeKey::new(1));
    assert_ne!(TypeKey::new(1), TypeKey::new(2));
}

#[test]
fn first_attachment_registers() {
    let mut registrar = Registrar::new();
    let a = TypeKey::new(10);
    assert_eq!(registrar.attach(a), Diagnostic::Registered(a));
    assert_eq!(registrar.table().len(), 1);
    assert!(registrar.table().contains(a));
}

#[test]
fn repeated_attachments_skip() {
    // Three attachments of one type with no driver cycle in between: the
    // table ends with a single entry, and the diagnostics in attachment order
    // are one "registered" followed by two "skipped".
    let mut registrar = Registrar::new();
    let a = TypeKey::new(10);
    assert_eq!(registrar.attach(a), Diagnostic::Registered(a));
    assert_eq!(registrar.attach(a), Diagnostic::Skipped(a));
    assert_eq!(registrar.attach(a), Diagnostic::Skipped(a));
    assert_eq!(registrar.table().len(), 1);
    assert!(registrar.table().contains(a));
}

#[test]
fn interleaved_attachments_deduplicate() {
    // Attach a, then b, then a again: the table holds the two keys, the
    // diagnostics come in attachment order, and the next driver cycle invokes
    // each of the two routines exactly once.
    let mut registrar = Registrar::new();
    let a = TypeKey::new(1);
    let b = TypeKey::new(2);
    assert_eq!(registrar.attach(a), Diagnostic::Registered(a));
    assert_eq!(registrar.attach(b), Diagnostic::Registered(b));
    assert_eq!(registrar.attach(a), Diagnostic::Skipped(a));
    assert_eq!(registrar.table().len(), 2);
    assert!(registrar.table().contains(a));
    assert!(registrar.table().contains(b));
    let plan = registrar.driver_cycle();
    assert_eq!(plan.len(), 2);
    assert_ne!(plan[0], plan[1]);
    let entries = registrar.table().iterate();
    assert!(plan.contains(&entries[0].handle));
    assert!(plan.contains(&entries[1].handle));
}

#[test]
fn each_type_gets_its_own_handle() {
    let mut registrar = Registrar::new();
    registrar.attach(TypeKey::new(5));
    registrar.attach(TypeKey::new(6));
    registrar.attach(TypeKey::new(7));
    let entries = registrar.table().iterate();
    assert_eq!(entries.len(), 3);
    for i in 0..entries.len() {
        for j in 0..entries.len() {
            if i != j {
                assert_ne!(entries[i].key, entries[j].key);
                assert_ne!(entries[i].handle, entries[j].handle);
            }
        }
    }
}

#[test]
fn handles_follow_registration_order() {
    let mut registrar = Registrar::new();
    registrar.attach(TypeKey::new(40));
    registrar.attach(TypeKey::new(30));
    registrar.attach(TypeKey::new(40));
    registrar.attach(TypeKey::new(20));
    let entries = registrar.table().iterate();
    assert_eq!(entries.len(), 3);
    for (i, entry) in entries.iter().enumerate() {
        assert_eq!(entry.handle, RoutineHandle { id: i });
    }
}

#[test]
fn driver_invokes_each_registered_routine_once() {
    // With K distinct types registered, one driver cycle plans exactly K
    // invocations, no handle repeated.
    let mut registrar = Registrar::new();
    let count: usize = 5;
    for id in 0..count {
        registrar.attach(TypeKey::new(id as u64));
        registrar.attach(TypeKey::new(id as u64));
    }
    let plan = registrar.driver_cycle();
    assert_eq!(plan.len(), count);
    for i in 0..plan.len() {
        for j in 0..plan.len() {
            if i != j {
                assert_ne!(plan[i], plan[j]);
            }
        }
    }
}

#[test]
fn driver_on_empty_table_plans_nothing() {
    let registrar = Registrar::new();
    let plan = registrar.driver_cycle();
    assert!(plan.is_empty());
}
