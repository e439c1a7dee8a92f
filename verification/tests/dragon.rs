use cacher::bus::{Bus, BusAction};
use cacher::cache::Cache;
use cacher::protocol::dragon::{Dragon, DragonState};
use cacher::protocol::Protocol;
use cacher::utils::AddressLayout;

const CACHE_SIZE: usize = 16;
const BLOCK_SIZE: usize = 4;
const ASSOCIATIVITY: usize = 1;

fn addr_layout(cache_size: usize, block_size: usize, associativity: usize) -> AddressLayout {
    Cache::layout_for(cache_size, associativity, block_size)
}

#[test]
fn dragon_invalid_to_exclusive_to_exclusive_to_modified() {
    let layout = addr_layout(CACHE_SIZE, BLOCK_SIZE, ASSOCIATIVITY);
    let mut protocol = Dragon::new(0, CACHE_SIZE, BLOCK_SIZE, ASSOCIATIVITY, &layout);
    let mut bus = Bus::new();

    let addr = 0x100;
    let set_idx = layout.index(addr);
    let block_idx = 0;
    let store_idx = layout.nested_to_flat(set_idx, block_idx);

    assert_eq!(protocol.line(store_idx), None);
    let action = protocol.read(addr, None, store_idx, false, &mut bus);
    assert!(action.is_some());
    assert_eq!(
        protocol.line(store_idx).unwrap(),
        (DragonState::E, layout.tag(addr))
    );

    if let Some(action) = action {
        bus.put_on(0, action);
    }

    let task = protocol.snoop(&mut bus);
    assert!(task.is_none());
    assert_eq!(
        protocol.line(store_idx).unwrap(),
        (DragonState::E, layout.tag(addr))
    );

    protocol.after_snoop(&mut bus);
    assert_eq!(
        protocol.line(store_idx).unwrap(),
        (DragonState::E, layout.tag(addr))
    );

    let action = protocol.read(addr, Some(store_idx), store_idx, true, &mut bus);
    assert!(action.is_none());
    assert_eq!(
        protocol.line(store_idx).unwrap(),
        (DragonState::E, layout.tag(addr))
    );

    let action = protocol.write(addr, Some(store_idx), store_idx, true, &mut bus);
    assert!(action.is_none());
    assert_eq!(
        protocol.line(store_idx).unwrap(),
        (DragonState::M, layout.tag(addr))
    );
}

#[test]
fn dragon_invalid_to_modified_to_modified() {
    let layout = addr_layout(CACHE_SIZE, BLOCK_SIZE, ASSOCIATIVITY);
    let mut protocol = Dragon::new(0, CACHE_SIZE, BLOCK_SIZE, ASSOCIATIVITY, &layout);
    let mut bus = Bus::new();

    let addr = 0x100;
    let set_idx = layout.index(addr);
    let block_idx = 0;
    let store_idx = layout.nested_to_flat(set_idx, block_idx);

    assert_eq!(protocol.line(store_idx), None);
    let action = protocol.write(addr, None, store_idx, false, &mut bus);
    assert!(action.is_some());
    assert_eq!(
        protocol.line(store_idx).unwrap(),
        (DragonState::E, layout.tag(addr))
    );

    let action = protocol.read(addr, Some(store_idx), store_idx, true, &mut bus);
    assert!(action.is_none());
    assert_eq!(
        protocol.line(store_idx).unwrap(),
        (DragonState::E, layout.tag(addr))
    );

    let action = protocol.write(addr, Some(store_idx), store_idx, true, &mut bus);
    assert!(action.is_none());
    assert_eq!(
        protocol.line(store_idx).unwrap(),
        (DragonState::M, layout.tag(addr))
    );
}

#[test]
fn invalid_to_shared_clean_to_shared_clean() {
    let layout = addr_layout(CACHE_SIZE, BLOCK_SIZE, ASSOCIATIVITY);
    let mut protocol = Dragon::new(0, CACHE_SIZE, BLOCK_SIZE, ASSOCIATIVITY, &layout);
    let mut bus = Bus::new();

    let addr = 0x100;
    let set_idx = layout.index(addr);
    let block_idx = 0;
    let store_idx = layout.nested_to_flat(set_idx, block_idx);

    assert_eq!(protocol.line(store_idx), None);
    let action = protocol.read(addr, None, store_idx, false, &mut bus);
    assert!(action.is_some());
    assert_eq!(
        protocol.line(store_idx).unwrap(),
        (DragonState::E, layout.tag(addr))
    );

    let mut other_protocol = Dragon::new(1, CACHE_SIZE, BLOCK_SIZE, ASSOCIATIVITY, &layout);

    assert_eq!(other_protocol.line(store_idx), None);
    let action = other_protocol.read(addr, None, store_idx, false, &mut bus);
    assert!(action.is_some());
    assert_eq!(
        other_protocol.line(store_idx).unwrap(),
        (DragonState::E, layout.tag(addr))
    );

    if let Some(action) = action {
        bus.put_on(1, action);
    }

    let task = protocol.snoop(&mut bus);

    assert!(task.is_some());
    assert_eq!(
        protocol.line(store_idx).unwrap(),
        (DragonState::Sc, layout.tag(addr))
    );

    other_protocol.after_snoop(&mut bus);

    assert_eq!(
        other_protocol.line(store_idx).unwrap(),
        (DragonState::Sc, layout.tag(addr))
    );

    let action = protocol.read(addr, Some(store_idx), store_idx, true, &mut bus);
    assert!(action.is_none());
    assert_eq!(
        protocol.line(store_idx).unwrap(),
        (DragonState::Sc, layout.tag(addr))
    );

    let action = other_protocol.read(addr, Some(store_idx), store_idx, true, &mut bus);
    assert!(action.is_none());
    assert_eq!(
        other_protocol.line(store_idx).unwrap(),
        (DragonState::Sc, layout.tag(addr))
    );
}

#[test]
fn exclusive_to_shared_modified_to_shared_modified_and_switch() {
    let layout = addr_layout(CACHE_SIZE, BLOCK_SIZE, ASSOCIATIVITY);
    let mut protocol = Dragon::new(0, CACHE_SIZE, BLOCK_SIZE, ASSOCIATIVITY, &layout);
    let mut bus = Bus::new();

    let addr = 0x100;
    let set_idx = layout.index(addr);
    let block_idx = 0;
    let store_idx = layout.nested_to_flat(set_idx, block_idx);

    assert_eq!(protocol.line(store_idx), None);
    let action = protocol.read(addr, None, store_idx, false, &mut bus);
    assert!(action.is_some());
    assert_eq!(
        protocol.line(store_idx).unwrap(),
        (DragonState::E, layout.tag(addr))
    );

    let mut other_protocol = Dragon::new(1, CACHE_SIZE, BLOCK_SIZE, ASSOCIATIVITY, &layout);

    assert_eq!(other_protocol.line(store_idx), None);
    let action = other_protocol.write(addr, None, store_idx, false, &mut bus);
    assert!(action.is_some());
    assert_eq!(
        other_protocol.line(store_idx).unwrap(),
        (DragonState::E, layout.tag(addr))
    );

    if let Some(action) = action {
        bus.put_on(1, action);
    }

    let task = protocol.snoop(&mut bus);

    assert!(task.is_some());
    assert_eq!(
        protocol.line(store_idx).unwrap(),
        (DragonState::Sc, layout.tag(addr))
    );

    other_protocol.after_snoop(&mut bus);

    assert_eq!(
        other_protocol.line(store_idx).unwrap(),
        (DragonState::Sm, layout.tag(addr))
    );

    while bus.occupied() {
        bus.update();
    }

    let action = protocol.read(addr, Some(store_idx), store_idx, true, &mut bus);
    assert!(action.is_none());
    assert_eq!(
        protocol.line(store_idx).unwrap(),
        (DragonState::Sc, layout.tag(addr))
    );

    let action = other_protocol.read(addr, Some(store_idx), store_idx, true, &mut bus);
    assert!(action.is_none());
    assert_eq!(
        other_protocol.line(store_idx).unwrap(),
        (DragonState::Sm, layout.tag(addr))
    );

    let action = protocol.write(addr, Some(store_idx), store_idx, true, &mut bus);
    assert!(action.is_some());
    assert_eq!(
        protocol.line(store_idx).unwrap(),
        (DragonState::M, layout.tag(addr))
    );

    if let Some(action) = action {
        bus.put_on(0, action);
    }

    let task = other_protocol.snoop(&mut bus);

    assert!(task.is_some());
    assert_eq!(
        other_protocol.line(store_idx).unwrap(),
        (DragonState::Sc, layout.tag(addr))
    );

    protocol.after_snoop(&mut bus);

    assert!(task.is_some());
    assert_eq!(
        protocol.line(store_idx).unwrap(),
        (DragonState::Sm, layout.tag(addr))
    );
}

#[test]
fn modified_to_shared_modified() {
    let layout = addr_layout(CACHE_SIZE, BLOCK_SIZE, ASSOCIATIVITY);
    let mut protocol = Dragon::new(0, CACHE_SIZE, BLOCK_SIZE, ASSOCIATIVITY, &layout);
    let mut bus = Bus::new();

    let addr = 0x100;
    let set_idx = layout.index(addr);
    let block_idx = 0;
    let store_idx = layout.nested_to_flat(set_idx, block_idx);

    assert_eq!(protocol.line(store_idx), None);
    let action = protocol.write(addr, None, store_idx, false, &mut bus);

    assert_eq!(
        protocol.line(store_idx).unwrap(),
        (DragonState::E, layout.tag(addr))
    );

    assert!(action.is_some());
    if let Some(action) = action {
        assert_eq!(action, BusAction::BusUpdMem(addr, BLOCK_SIZE));
        bus.put_on(0, action);
    }

    protocol.after_snoop(&mut bus);
    bus.clear();

    assert_eq!(
        protocol.line(store_idx).unwrap(),
        (DragonState::M, layout.tag(addr))
    );

    let mut other_protocol = Dragon::new(1, CACHE_SIZE, BLOCK_SIZE, ASSOCIATIVITY, &layout);

    assert_eq!(other_protocol.line(store_idx), None);
    let action = other_protocol.read(addr, None, store_idx, false, &mut bus);
    assert!(action.is_some());
    assert_eq!(
        other_protocol.line(store_idx).unwrap(),
        (DragonState::E, layout.tag(addr))
    );

    if let Some(action) = action {
        bus.put_on(1, action);
    }

    let task = protocol.snoop(&mut bus);

    assert!(task.is_some());
    assert_eq!(
        protocol.line(store_idx).unwrap(),
        (DragonState::Sm, layout.tag(addr))
    );

    other_protocol.after_snoop(&mut bus);

    assert_eq!(
        other_protocol.line(store_idx).unwrap(),
        (DragonState::Sc, layout.tag(addr))
    );

    while bus.occupied() {
        bus.update();
    }

    let mut another_protocol = Dragon::new(2, CACHE_SIZE, BLOCK_SIZE, ASSOCIATIVITY, &layout);

    assert_eq!(another_protocol.line(store_idx), None);
    let action = another_protocol.write(addr, None, store_idx, false, &mut bus);
    assert!(action.is_some());
    assert_eq!(
        another_protocol.line(store_idx).unwrap(),
        (DragonState::E, layout.tag(addr))
    );

    if let Some(action) = action {
        bus.put_on(2, action);
    }

    let _ = protocol.snoop(&mut bus);
    let task = other_protocol.snoop(&mut bus);

    assert!(task.is_some());
    assert_eq!(
        protocol.line(store_idx).unwrap(),
        (DragonState::Sc, layout.tag(addr))
    );
    assert_eq!(
        other_protocol.line(store_idx).unwrap(),
        (DragonState::Sc, layout.tag(addr))
    );

    another_protocol.after_snoop(&mut bus);
    assert_eq!(
        another_protocol.line(store_idx).unwrap(),
        (DragonState::Sm, layout.tag(addr))
    );
}

#[test]
fn shared_modified_to_modified() {
    let layout = addr_layout(CACHE_SIZE, BLOCK_SIZE, ASSOCIATIVITY);
    let mut protocol = Dragon::new(0, CACHE_SIZE, BLOCK_SIZE, ASSOCIATIVITY, &layout);
    let mut bus = Bus::new();

    let addr = 0x100;
    let set_idx = layout.index(addr);
    let block_idx = 0;
    let store_idx = layout.nested_to_flat(set_idx, block_idx);

    assert_eq!(protocol.line(store_idx), None);
    let action = protocol.read(addr, None, store_idx, false, &mut bus);
    assert!(action.is_some());
    assert_eq!(
        protocol.line(store_idx).unwrap(),
        (DragonState::E, layout.tag(addr))
    );

    let mut other_protocol = Dragon::new(1, CACHE_SIZE, BLOCK_SIZE, ASSOCIATIVITY, &layout);

    assert_eq!(other_protocol.line(store_idx), None);
    let action = other_protocol.write(addr, None, store_idx, false, &mut bus);
    assert!(action.is_some());
    assert_eq!(
        other_protocol.line(store_idx).unwrap(),
        (DragonState::E, layout.tag(addr))
    );

    if let Some(action) = action {
        bus.put_on(1, action);
    }

    let task = protocol.snoop(&mut bus);

    assert!(task.is_some());
    assert_eq!(
        protocol.line(store_idx).unwrap(),
        (DragonState::Sc, layout.tag(addr))
    );

    other_protocol.after_snoop(&mut bus);

    assert_eq!(
        other_protocol.line(store_idx).unwrap(),
        (DragonState::Sm, layout.tag(addr))
    );

    while bus.occupied() {
        bus.update();
    }

    // invalidate
    protocol.invalidate(store_idx, layout.tag(addr));

    let action = other_protocol.write(addr, Some(store_idx), store_idx, true, &mut bus);
    assert!(action.is_some());
    assert_eq!(
        other_protocol.line(store_idx).unwrap(),
        (DragonState::M, layout.tag(addr))
    );

    if let Some(action) = action {
        bus.put_on(1, action);
    }

    let task = protocol.snoop(&mut bus);

    assert!(task.is_none());
    assert_eq!(protocol.line(store_idx), None);

    other_protocol.after_snoop(&mut bus);

    assert_eq!(
        other_protocol.line(store_idx).unwrap(),
        (DragonState::M, layout.tag(addr))
    );
}

#[test]
fn shared_clean_to_modified() {
    let layout = addr_layout(CACHE_SIZE, BLOCK_SIZE, ASSOCIATIVITY);
    let mut protocol = Dragon::new(0, CACHE_SIZE, BLOCK_SIZE, ASSOCIATIVITY, &layout);
    let mut bus = Bus::new();

    let addr = 0x100;
    let set_idx = layout.index(addr);
    let block_idx = 0;
    let store_idx = layout.nested_to_flat(set_idx, block_idx);

    assert_eq!(protocol.line(store_idx), None);
    let action = protocol.read(addr, None, store_idx, false, &mut bus);
    assert!(action.is_some());
    assert_eq!(
        protocol.line(store_idx).unwrap(),
        (DragonState::E, layout.tag(addr))
    );

    let mut other_protocol = Dragon::new(1, CACHE_SIZE, BLOCK_SIZE, ASSOCIATIVITY, &layout);

    assert_eq!(other_protocol.line(store_idx), None);
    let action = other_protocol.write(addr, None, store_idx, false, &mut bus);
    assert!(action.is_some());
    assert_eq!(
        other_protocol.line(store_idx).unwrap(),
        (DragonState::E, layout.tag(addr))
    );

    if let Some(action) = action {
        bus.put_on(1, action);
    }

    let task = protocol.snoop(&mut bus);

    assert!(task.is_some());
    assert_eq!(
        protocol.line(store_idx).unwrap(),
        (DragonState::Sc, layout.tag(addr))
    );

    other_protocol.after_snoop(&mut bus);

    assert_eq!(
        other_protocol.line(store_idx).unwrap(),
        (DragonState::Sm, layout.tag(addr))
    );

    while bus.occupied() {
        bus.update();
    }

    // invalidate
    other_protocol.invalidate(store_idx, layout.tag(addr));

    let action = protocol.write(addr, Some(store_idx), store_idx, true, &mut bus);
    assert!(action.is_some());
    assert_eq!(
        protocol.line(store_idx).unwrap(),
        (DragonState::M, layout.tag(addr))
    );

    if let Some(action) = action {
        bus.put_on(0, action);
    }

    let task = other_protocol.snoop(&mut bus);

    assert!(task.is_none());
    assert_eq!(other_protocol.line(store_idx), None);

    protocol.after_snoop(&mut bus);

    assert_eq!(
        protocol.line(store_idx).unwrap(),
        (DragonState::M, layout.tag(addr))
    );
}
